//! The lexicon: a prefix tree of words, kept in a directed graph whose
//! edges carry one letter each.

use crate::graph::edge_list;
use crate::graph::edges_from;
use crate::graph::graph_add_node;
use crate::graph::graph_edge_count;
use crate::graph::graph_new;
use crate::graph::graph_node_count;
use crate::graph::graph_node_weight;
use crate::graph::graph_node_weight_mut;
use crate::graph::graph_out_edges;
use crate::graph::graph_update_edge;
use crate::graph::node_flags;
use crate::tree::count_set;
use crate::tree::distinct_labels;
use crate::tree::held;
use crate::tree::lemma_child_word;
use crate::tree::lemma_count_set_bound;
use crate::tree::lemma_count_set_push;
use crate::tree::lemma_count_set_raise;
use crate::tree::lemma_flag_adds_word;
use crate::tree::lemma_flag_settles;
use crate::tree::lemma_grow;
use crate::tree::lemma_grow_held;
use crate::tree::lemma_held_longer;
use crate::tree::lemma_live_held;
use crate::tree::lemma_live_root;
use crate::tree::lemma_member;
use crate::tree::lemma_no_child_no_path;
use crate::tree::lemma_no_path_no_member;
use crate::tree::lemma_nodes_are_prefixes;
use crate::tree::lemma_out_edges;
use crate::tree::lemma_path_word_empty;
use crate::tree::lemma_prefixes_after;
use crate::tree::lemma_reach_lower;
use crate::tree::lemma_reach_upper;
use crate::tree::live;
use crate::tree::path_word;
use crate::tree::reach;
use crate::tree::spells;
use crate::tree::tree_shaped;
use crate::tree::words;
use crate::wordset::lemma_prefixes_step;
use crate::wordset::prefixes;
use crate::wordset::with_word;
use petgraph::graph::Graph;
use petgraph::Directed;
use vstd::prelude::*;

verus! {

/// A set of words, stored as a prefix tree.
///
/// Its view is the set of words it holds. The empty word is never one of
/// them.
#[derive(Debug)]
pub struct Trie {
    graph: Graph<bool, char, Directed, u32>,
    root: u32,
    size: usize,
}

impl View for Trie {
    type V = Set<Seq<char>>;

    closed spec fn view(&self) -> Set<Seq<char>> {
        words(node_flags(self.graph), edge_list(self.graph))
    }
}

/// The child of `node` along `letter`, if it has one: the target of the
/// first of its outgoing edges, as the graph hands them out, that carries
/// the letter.
fn step(graph: &Graph<bool, char, Directed, u32>, node: u32, letter: char) -> (child: Option<u32>)
    ensures
        match child {
            Some(target) => edge_list(*graph).contains((node, target, letter)),
            None => forall|e: int|
                0 <= e < edge_list(*graph).len() ==> !((#[trigger] edge_list(*graph)[e]).0 == node
                    && edge_list(*graph)[e].2 == letter),
        },
{
    let ghost edges = edge_list(*graph);
    let out = graph_out_edges(graph, node);
    let mut i: usize = 0;
    while i < out.len()
        invariant
            i <= out.len(),
            edges == edge_list(*graph),
            out@.to_multiset() == edges_from(edges, node).to_multiset(),
            forall|k: int| 0 <= k < i ==> (#[trigger] out@[k]).1 != letter,
        decreases out.len() - i,
    {
        if out[i].1 == letter {
            proof {
                assert(out@[i as int] == (out@[i as int].0, letter));
                lemma_out_edges(edges, node, out@, out@[i as int].0, letter);
            }
            return Some(out[i].0);
        }
        i += 1;
    }
    proof {
        assert forall|e: int| 0 <= e < edges.len() implies !((#[trigger] edges[e]).0 == node
            && edges[e].2 == letter) by {
            if edges[e].0 == node && edges[e].2 == letter {
                lemma_out_edges(edges, node, out@, edges[e].1, letter);
                assert(edges[e] == (node, edges[e].1, letter));
            }
        }
    }
    None
}

impl Trie {
    /// The tree is well formed: every node has one path from the root, no
    /// node has two children for one letter, the root marks no word, and
    /// `size` counts the words.
    pub closed spec fn wf(&self) -> bool {
        let nodes = node_flags(self.graph);
        let edges = edge_list(self.graph);
        &&& tree_shaped(nodes, edges)
        &&& distinct_labels(edges)
        &&& self.root == 0
        &&& !nodes[0]
        &&& live(nodes, edges)
        &&& self.size == count_set(nodes)
        &&& self@.finite()
        &&& self@.len() == self.size
    }

    /// A lexicon without words.
    pub fn new() -> (trie: Trie)
        ensures
            trie.wf(),
            trie@ == Set::<Seq<char>>::empty(),
    {
        let mut graph = graph_new();
        let root: u32 = graph_add_node(&mut graph, false);
        let trie = Trie { graph: graph, root: root, size: 0 };
        proof {
            let nodes = node_flags(trie.graph);
            let edges = edge_list(trie.graph);
            lemma_count_set_push(Seq::<bool>::empty(), false);
            lemma_live_root(nodes, edges);
            assert forall|w: Seq<char>| !words(nodes, edges).contains(w) by {}
            assert(words(nodes, edges) =~= Set::<Seq<char>>::empty());
        }
        trie
    }

    /// Adds `word` to the lexicon. The empty word is not added, and a word
    /// that is already there changes nothing.
    ///
    /// The tree has a node for each beginning of a word, and it numbers
    /// its nodes in 32 bits: the words, `word` among them, must have fewer
    /// than `u32::MAX` beginnings. `has_room` tests that.
    pub fn insert(&mut self, word: &str)
        requires
            old(self).wf(),
            prefixes(with_word(old(self)@, word@)).len() < u32::MAX,
        ensures
            final(self).wf(),
            final(self)@ == with_word(old(self)@, word@),
    {
        let ghost nodes0 = node_flags(self.graph);
        let ghost edges0 = edge_list(self.graph);
        let ghost shared0 = reach(edges0, word@);
        proof {
            lemma_prefixes_after(nodes0, edges0, word@);
            lemma_live_held(nodes0, edges0, word@.take(0));
        }
        if word.is_empty() {
            return ;
        }
        let mut node: u32 = self.root;
        for letter in it: word.chars()
            invariant
                it.seq() == word@,
                self.root == 0,
                self.size == old(self).size,
                tree_shaped(node_flags(self.graph), edge_list(self.graph)),
                distinct_labels(edge_list(self.graph)),
                !node_flags(self.graph)[0],
                node < node_flags(self.graph).len(),
                path_word(edge_list(self.graph), node as int) == word@.take(it.index()),
                held(node_flags(self.graph), edge_list(self.graph), word@.take(it.index())),
                words(node_flags(self.graph), edge_list(self.graph)) == words(nodes0, edges0),
                count_set(node_flags(self.graph)) == count_set(nodes0),
                shared0 == reach(edges0, word@),
                shared0 <= word@.len(),
                nodes0.len() + (word@.len() - shared0) <= u32::MAX,
                tree_shaped(nodes0, edges0),
                distinct_labels(edges0),
                if it.index() <= shared0 {
                    node_flags(self.graph) == nodes0 && edge_list(self.graph) == edges0
                } else {
                    node_flags(self.graph).len() == nodes0.len() + (it.index() - shared0) && node
                        == node_flags(self.graph).len() - 1
                },
        {
            let ghost i = it.index();
            let ghost nodes = node_flags(self.graph);
            let ghost edges = edge_list(self.graph);
            assert(letter == word@[i]);
            assert(word@.take(i).push(letter) =~= word@.take(i + 1));
            match step(&self.graph, node, letter) {
                Some(child) => {
                    proof {
                        lemma_child_word(nodes, edges, node, child, letter);
                        assert(word@.take(i) =~= word@.take(i + 1).subrange(0, i));
                        lemma_held_longer(nodes, edges, word@.take(i), word@.take(i + 1));
                        if i <= shared0 {
                            assert(path_word(edges0, child as int) == word@.take(i + 1));
                            lemma_reach_lower(edges0, word@, i + 1);
                        }
                    }
                    node = child;
                },
                None => {
                    proof {
                        lemma_no_child_no_path(nodes, edges, node as int, letter);
                        if i <= shared0 {
                            lemma_reach_upper(nodes0, edges0, word@, i + 1);
                        }
                        lemma_grow(nodes, edges, node, letter);
                        lemma_grow_held(nodes, edges, node, letter);
                    }
                    let leaf: u32 = graph_add_node(&mut self.graph, false);
                    graph_update_edge(&mut self.graph, node, leaf, letter);
                    node = leaf;
                },
            }
        }
        proof {
            assert(word@.take(word@.len() as int) =~= word@);
            lemma_path_word_empty(node_flags(self.graph), edge_list(self.graph), node as int);
            lemma_member(node_flags(self.graph), edge_list(self.graph), node as int);
            lemma_flag_adds_word(node_flags(self.graph), edge_list(self.graph), node as int);
            lemma_flag_settles(node_flags(self.graph), edge_list(self.graph), node as int);
            lemma_count_set_bound(node_flags(self.graph));
        }
        let ghost nodes = node_flags(self.graph);
        match graph_node_weight_mut(&mut self.graph, node) {
            Some(terminal) => {
                if !*terminal {
                    *terminal = true;
                    proof {
                        lemma_count_set_raise(nodes, node as int);
                        lemma_count_set_bound(nodes.update(node as int, true));
                    }
                    self.size += 1;
                } else {
                    assert(nodes.update(node as int, true) =~= nodes);
                }
            },
            None => {},
        }
    }

    /// Whether `word` is in the lexicon.
    pub fn contains(&self, word: &str) -> (found: bool)
        requires
            self.wf(),
        ensures
            found == self@.contains(word@),
            word@.len() == 0 ==> !found,
    {
        let ghost nodes = node_flags(self.graph);
        let ghost edges = edge_list(self.graph);
        let mut node: u32 = self.root;
        for letter in it: word.chars()
            invariant
                it.seq() == word@,
                self.wf(),
                nodes == node_flags(self.graph),
                edges == edge_list(self.graph),
                node < nodes.len(),
                path_word(edges, node as int) == word@.take(it.index()),
        {
            let ghost i = it.index();
            assert(letter == word@[i]);
            assert(word@.take(i).push(letter) =~= word@.take(i + 1));
            match step(&self.graph, node, letter) {
                Some(child) => {
                    proof {
                        lemma_child_word(nodes, edges, node, child, letter);
                    }
                    node = child;
                },
                None => {
                    proof {
                        lemma_no_child_no_path(nodes, edges, node as int, letter);
                        lemma_no_path_no_member(nodes, edges, word@, i + 1);
                    }
                    return false;
                },
            }
        }
        proof {
            assert(word@.take(word@.len() as int) =~= word@);
            lemma_member(nodes, edges, node as int);
            lemma_path_word_empty(nodes, edges, node as int);
        }
        match graph_node_weight(&self.graph, node) {
            Some(terminal) => terminal,
            None => false,
        }
    }

    /// Whether the tree has room for `word`: whether `insert` may be called
    /// with it.
    pub fn has_room(&self, word: &str) -> (room: bool)
        requires
            self.wf(),
        ensures
            room == (prefixes(with_word(self@, word@)).len() < u32::MAX),
    {
        let ghost nodes = node_flags(self.graph);
        let ghost edges = edge_list(self.graph);
        let count: usize = graph_node_count(&self.graph);
        let mut node: u32 = self.root;
        let mut on_path = true;
        let mut extra: usize = 0;
        proof {
            lemma_prefixes_after(nodes, edges, word@);
        }
        for letter in it: word.chars()
            invariant
                it.seq() == word@,
                self.wf(),
                prefixes(with_word(self@, word@)).len() == nodes.len() - 1 + (word@.len() - reach(
                    edges,
                    word@,
                )),
                nodes == node_flags(self.graph),
                edges == edge_list(self.graph),
                count == nodes.len(),
                node < nodes.len(),
                reach(edges, word@) <= word@.len(),
                on_path ==> extra == 0 && path_word(edges, node as int) == word@.take(it.index()),
                !on_path ==> extra == it.index() - reach(edges, word@) && extra > 0,
                count + extra <= u32::MAX,
        {
            let ghost i = it.index();
            assert(letter == word@[i]);
            assert(word@.take(i).push(letter) =~= word@.take(i + 1));
            if on_path {
                match step(&self.graph, node, letter) {
                    Some(child) => {
                        proof {
                            lemma_child_word(nodes, edges, node, child, letter);
                        }
                        node = child;
                    },
                    None => {
                        proof {
                            lemma_no_child_no_path(nodes, edges, node as int, letter);
                            lemma_reach_upper(nodes, edges, word@, i + 1);
                            lemma_reach_lower(edges, word@, i);
                        }
                        on_path = false;
                    },
                }
            }
            if !on_path {
                if count + extra >= 0xffff_ffff {
                    return false;
                }
                extra += 1;
            }
        }
        proof {
            assert(word@.take(word@.len() as int) =~= word@);
            if on_path {
                lemma_reach_lower(edges, word@, word@.len() as int);
            }
        }
        true
    }

    /// The empty word is in no lexicon.
    pub proof fn lemma_empty_word_absent(&self)
        requires
            self.wf(),
        ensures
            !self@.contains(Seq::<char>::empty()),
    {
        let nodes = node_flags(self.graph);
        let edges = edge_list(self.graph);
        if spells(nodes, edges, Seq::<char>::empty()) {
            let n = choose|n: int|
                0 <= n < nodes.len() && nodes[n] && #[trigger] path_word(edges, n) == Seq::<
                    char,
                >::empty();
            lemma_path_word_empty(nodes, edges, n);
        }
    }

    /// The lexicon is finite. Its words have finitely many beginnings,
    /// fewer than `u32::MAX`, and there are no more words than beginnings.
    pub proof fn lemma_size_fits(&self)
        requires
            self.wf(),
        ensures
            self@.finite(),
            prefixes(self@).finite(),
            self@.len() <= prefixes(self@).len() < u32::MAX,
    {
        lemma_count_set_bound(node_flags(self.graph));
        lemma_nodes_are_prefixes(node_flags(self.graph), edge_list(self.graph));
    }

    /// The room that a word takes: no more than one beginning for each of
    /// its letters, and none at all if the lexicon holds the word or the
    /// word is empty.
    pub proof fn lemma_room(&self, word: Seq<char>)
        requires
            self.wf(),
        ensures
            prefixes(with_word(self@, word)).finite(),
            prefixes(self@).len() <= prefixes(with_word(self@, word)).len() <= prefixes(self@).len()
                + word.len(),
            word.len() == 0 || self@.contains(word) ==> prefixes(with_word(self@, word)).len()
                < u32::MAX,
    {
        self.lemma_size_fits();
        lemma_prefixes_step(self@, word);
        if word.len() == 0 || self@.contains(word) {
            assert(with_word(self@, word) =~= self@);
        }
    }

    /// The number of words in the lexicon.
    pub fn size(&self) -> (count: usize)
        requires
            self.wf(),
        ensures
            count == self@.len(),
    {
        self.size
    }

    /// The number of nodes of the tree: one for the root and one for each
    /// beginning of a word.
    pub fn node_count(&self) -> (count: usize)
        requires
            self.wf(),
        ensures
            count == prefixes(self@).len() + 1,
    {
        proof {
            lemma_nodes_are_prefixes(node_flags(self.graph), edge_list(self.graph));
        }
        graph_node_count(&self.graph)
    }

    /// The number of edges of the tree: one for each beginning of a word.
    pub fn edge_count(&self) -> (count: usize)
        requires
            self.wf(),
        ensures
            count == prefixes(self@).len(),
    {
        proof {
            lemma_nodes_are_prefixes(node_flags(self.graph), edge_list(self.graph));
        }
        graph_edge_count(&self.graph)
    }
}

} // verus!
