//! The mathematics of a letter-labelled tree laid out in two sequences:
//! one flag per node, and one (source, target, letter) triple per edge.
//!
//! Node 0 is the root. Edge number `e` is the one edge that enters node
//! `e + 1`, and it comes from an earlier node, so every node has exactly
//! one path from the root. The letters along that path spell the node's
//! word; a node whose flag is set marks its word as a member. In the
//! trees that a lexicon builds, every branch ends in a member, so the
//! nodes but the root are as many as the members have beginnings.

use crate::graph::edges_from;
use crate::graph::leaves;
use crate::wordset::beginnings;
use crate::wordset::lemma_prefixes_with_word;
use crate::wordset::prefixes;
use crate::wordset::with_word;
use vstd::prelude::*;
use vstd::seq_lib::to_multiset_contains;

verus! {

/// Edge `e` enters node `e + 1` and leaves a node before it.
pub open spec fn tree_shaped(nodes: Seq<bool>, edges: Seq<(u32, u32, char)>) -> bool {
    &&& nodes.len() == edges.len() + 1
    &&& nodes.len() <= u32::MAX
    &&& forall|e: int|
        0 <= e < edges.len() ==> (#[trigger] edges[e]).1 == e + 1 && edges[e].0 <= e
}

/// No node has two outgoing edges with the same letter.
pub open spec fn distinct_labels(edges: Seq<(u32, u32, char)>) -> bool {
    forall|i: int, j: int|
        0 <= i < j < edges.len() ==> !((#[trigger] edges[i]).0 == (#[trigger] edges[j]).0
            && edges[i].2 == edges[j].2)
}

/// The letters on the path from the root to node `n`.
pub open spec fn path_word(edges: Seq<(u32, u32, char)>, n: int) -> Seq<char>
    decreases n,
{
    if 0 < n <= edges.len() && edges[n - 1].0 < n {
        path_word(edges, edges[n - 1].0 as int).push(edges[n - 1].2)
    } else {
        Seq::empty()
    }
}

/// Some flagged node spells `w`.
pub open spec fn spells(nodes: Seq<bool>, edges: Seq<(u32, u32, char)>, w: Seq<char>) -> bool {
    exists|n: int| 0 <= n < nodes.len() && nodes[n] && #[trigger] path_word(edges, n) == w
}

/// The words of the tree: those spelled by its flagged nodes.
pub open spec fn words(nodes: Seq<bool>, edges: Seq<(u32, u32, char)>) -> Set<Seq<char>> {
    Set::new(|w: Seq<char>| spells(nodes, edges, w))
}

/// Some node, flagged or not, spells `w`.
pub open spec fn has_path(edges: Seq<(u32, u32, char)>, w: Seq<char>) -> bool {
    exists|n: int| 0 <= n <= edges.len() && #[trigger] path_word(edges, n) == w
}

/// The length of the longest prefix of `w` that some node spells.
pub open spec fn reach(edges: Seq<(u32, u32, char)>, w: Seq<char>) -> nat
    decreases w.len(),
{
    if w.len() == 0 || has_path(edges, w) {
        w.len()
    } else {
        reach(edges, w.drop_last())
    }
}

/// The number of set flags.
pub open spec fn count_set(nodes: Seq<bool>) -> nat
    decreases nodes.len(),
{
    if nodes.len() == 0 {
        0
    } else {
        count_set(nodes.drop_last()) + if nodes.last() {
            1nat
        } else {
            0nat
        }
    }
}

/// Some flagged node spells a word that begins with `p`.
pub closed spec fn starts_word(nodes: Seq<bool>, edges: Seq<(u32, u32, char)>, p: Seq<char>) -> bool {
    exists|m: int|
        0 <= m < nodes.len() && nodes[m] && p.is_prefix_of(#[trigger] path_word(edges, m))
}

/// Every node but the root spells the beginning of a member, or else the
/// beginning of `w`.
pub closed spec fn held(nodes: Seq<bool>, edges: Seq<(u32, u32, char)>, w: Seq<char>) -> bool {
    forall|n: int|
        0 < n < nodes.len() ==> starts_word(nodes, edges, #[trigger] path_word(edges, n))
            || path_word(edges, n).is_prefix_of(w)
}

/// Every node but the root spells the beginning of a member: the tree has
/// no branch that ends without a word.
pub closed spec fn live(nodes: Seq<bool>, edges: Seq<(u32, u32, char)>) -> bool {
    forall|n: int|
        0 < n < nodes.len() ==> starts_word(nodes, edges, #[trigger] path_word(edges, n))
}

/// The words that the nodes from 1 to `k` spell.
pub open spec fn spelled(edges: Seq<(u32, u32, char)>, k: int) -> Set<Seq<char>> {
    Set::new(|p: Seq<char>| exists|n: int| 0 < n <= k && #[trigger] path_word(edges, n) == p)
}

/// There are no more set flags than flags, and fewer if the first is not
/// set.
pub proof fn lemma_count_set_bound(nodes: Seq<bool>)
    ensures
        count_set(nodes) <= nodes.len(),
        nodes.len() > 0 && !nodes[0] ==> count_set(nodes) < nodes.len(),
    decreases nodes.len(),
{
    if nodes.len() > 0 {
        lemma_count_set_bound(nodes.drop_last());
        if nodes.len() == 1 {
            assert(nodes.drop_last().len() == 0);
        }
    }
}

/// An appended flag counts if it is set.
pub proof fn lemma_count_set_push(nodes: Seq<bool>, flag: bool)
    ensures
        count_set(nodes.push(flag)) == count_set(nodes) + if flag {
            1nat
        } else {
            0nat
        },
{
    assert(nodes.push(flag).drop_last() =~= nodes);
}

/// Setting a flag that was not set adds one to the count.
pub proof fn lemma_count_set_raise(nodes: Seq<bool>, n: int)
    requires
        0 <= n < nodes.len(),
        !nodes[n],
    ensures
        count_set(nodes.update(n, true)) == count_set(nodes) + 1,
    decreases nodes.len(),
{
    let raised = nodes.update(n, true);
    if n == nodes.len() - 1 {
        assert(raised.drop_last() =~= nodes.drop_last());
    } else {
        lemma_count_set_raise(nodes.drop_last(), n);
        assert(raised.drop_last() =~= nodes.drop_last().update(n, true));
    }
}

/// A node's word has one letter more than its parent's.
pub proof fn lemma_path_word_step(nodes: Seq<bool>, edges: Seq<(u32, u32, char)>, e: int)
    requires
        tree_shaped(nodes, edges),
        0 <= e < edges.len(),
    ensures
        path_word(edges, e + 1) == path_word(edges, edges[e].0 as int).push(edges[e].2),
        path_word(edges, e + 1).len() > 0,
{
}

/// Only the root spells the empty word.
pub proof fn lemma_path_word_empty(nodes: Seq<bool>, edges: Seq<(u32, u32, char)>, n: int)
    requires
        tree_shaped(nodes, edges),
        0 <= n < nodes.len(),
    ensures
        path_word(edges, n).len() == 0 <==> n == 0,
{
    if n > 0 {
        lemma_path_word_step(nodes, edges, n - 1);
    }
}

/// Edges appended later do not change the word of a node.
pub proof fn lemma_path_word_stable(
    edges: Seq<(u32, u32, char)>,
    more: Seq<(u32, u32, char)>,
    n: int,
)
    requires
        0 <= n <= edges.len(),
    ensures
        path_word(edges + more, n) == path_word(edges, n),
    decreases n,
{
    let all = edges + more;
    if 0 < n {
        assert(all[n - 1] == edges[n - 1]);
        if edges[n - 1].0 < n {
            lemma_path_word_stable(edges, more, edges[n - 1].0 as int);
        }
    }
}

/// Two nodes that spell the same word are one node.
pub proof fn lemma_path_word_injective(
    nodes: Seq<bool>,
    edges: Seq<(u32, u32, char)>,
    a: int,
    b: int,
)
    requires
        tree_shaped(nodes, edges),
        distinct_labels(edges),
        0 <= a < nodes.len(),
        0 <= b < nodes.len(),
        path_word(edges, a) == path_word(edges, b),
    ensures
        a == b,
    decreases a,
{
    lemma_path_word_empty(nodes, edges, a);
    lemma_path_word_empty(nodes, edges, b);
    if a > 0 {
        let ea = edges[a - 1];
        let eb = edges[b - 1];
        let wa = path_word(edges, ea.0 as int);
        let wb = path_word(edges, eb.0 as int);
        lemma_path_word_step(nodes, edges, a - 1);
        lemma_path_word_step(nodes, edges, b - 1);
        assert(wa.push(ea.2).drop_last() =~= wa);
        assert(wb.push(eb.2).drop_last() =~= wb);
        assert(wa.push(ea.2).last() == ea.2);
        assert(wb.push(eb.2).last() == eb.2);
        lemma_path_word_injective(nodes, edges, ea.0 as int, eb.0 as int);
    }
}

/// Every prefix of a node's word is the word of a node.
pub proof fn lemma_prefix_has_path(
    nodes: Seq<bool>,
    edges: Seq<(u32, u32, char)>,
    n: int,
    k: int,
)
    requires
        tree_shaped(nodes, edges),
        0 <= n < nodes.len(),
        0 <= k <= path_word(edges, n).len(),
    ensures
        has_path(edges, path_word(edges, n).take(k)),
    decreases n,
{
    let w = path_word(edges, n);
    if k == w.len() {
        assert(w.take(k) =~= w);
    } else {
        lemma_path_word_step(nodes, edges, n - 1);
        let parent = edges[n - 1].0 as int;
        lemma_prefix_has_path(nodes, edges, parent, k);
        assert(w.take(k) =~= path_word(edges, parent).take(k));
    }
}

/// Where a prefix of `w` has a path, the reach of `w` is at least as long.
pub proof fn lemma_reach_lower(edges: Seq<(u32, u32, char)>, w: Seq<char>, k: int)
    requires
        0 <= k <= w.len(),
        has_path(edges, w.take(k)),
    ensures
        k <= reach(edges, w) <= w.len(),
    decreases w.len(),
{
    if k == w.len() {
        assert(w.take(k) =~= w);
    } else if !has_path(edges, w) {
        assert(w.drop_last().take(k) =~= w.take(k));
        lemma_reach_lower(edges, w.drop_last(), k);
    }
}

/// Where a prefix of `w` has no path, the reach of `w` is shorter than it.
pub proof fn lemma_reach_upper(
    nodes: Seq<bool>,
    edges: Seq<(u32, u32, char)>,
    w: Seq<char>,
    k: int,
)
    requires
        tree_shaped(nodes, edges),
        0 < k <= w.len(),
        !has_path(edges, w.take(k)),
    ensures
        reach(edges, w) < k,
    decreases w.len(),
{
    if has_path(edges, w) {
        let n = choose|n: int| 0 <= n <= edges.len() && #[trigger] path_word(edges, n) == w;
        lemma_prefix_has_path(nodes, edges, n, k);
    }
    if k == w.len() {
        assert(w.take(k) =~= w);
        if k > 1 {
            if has_path(edges, w.drop_last()) {
            } else {
                assert(w.drop_last().take(k - 1) =~= w.drop_last());
                lemma_reach_upper(nodes, edges, w.drop_last(), k - 1);
            }
        }
    } else {
        assert(w.drop_last().take(k) =~= w.take(k));
        lemma_reach_upper(nodes, edges, w.drop_last(), k);
    }
}


/// The target of an edge spells its source's word and the edge's letter.
pub proof fn lemma_child_word(
    nodes: Seq<bool>,
    edges: Seq<(u32, u32, char)>,
    parent: u32,
    child: u32,
    letter: char,
)
    requires
        tree_shaped(nodes, edges),
        edges.contains((parent, child, letter)),
    ensures
        0 < child < nodes.len(),
        parent < child,
        path_word(edges, child as int) == path_word(edges, parent as int).push(letter),
{
    let e = choose|e: int| 0 <= e < edges.len() && edges[e] == (parent, child, letter);
    lemma_path_word_step(nodes, edges, e);
}

/// A node without an outgoing edge for `letter` has no child that spells
/// its word followed by `letter`.
pub proof fn lemma_no_child_no_path(
    nodes: Seq<bool>,
    edges: Seq<(u32, u32, char)>,
    node: int,
    letter: char,
)
    requires
        tree_shaped(nodes, edges),
        distinct_labels(edges),
        0 <= node < nodes.len(),
        forall|e: int|
            0 <= e < edges.len() ==> !((#[trigger] edges[e]).0 == node && edges[e].2 == letter),
    ensures
        !has_path(edges, path_word(edges, node).push(letter)),
{
    let w = path_word(edges, node);
    if has_path(edges, w.push(letter)) {
        let m = choose|m: int| 0 <= m <= edges.len() && #[trigger] path_word(edges, m) == w.push(letter);
        lemma_path_word_empty(nodes, edges, m);
        lemma_path_word_step(nodes, edges, m - 1);
        let parent = edges[m - 1].0 as int;
        let pw = path_word(edges, parent);
        assert(pw.push(edges[m - 1].2).drop_last() =~= pw);
        assert(w.push(letter).drop_last() =~= w);
        assert(pw.push(edges[m - 1].2).last() == edges[m - 1].2);
        assert(w.push(letter).last() == letter);
        lemma_path_word_injective(nodes, edges, parent, node);
    }
}

/// A word is a member exactly if the node that spells it is flagged.
pub proof fn lemma_member(nodes: Seq<bool>, edges: Seq<(u32, u32, char)>, n: int)
    requires
        tree_shaped(nodes, edges),
        distinct_labels(edges),
        0 <= n < nodes.len(),
    ensures
        words(nodes, edges).contains(path_word(edges, n)) <==> nodes[n],
{
    let w = path_word(edges, n);
    if spells(nodes, edges, w) {
        let m = choose|m: int| 0 <= m < nodes.len() && nodes[m] && #[trigger] path_word(edges, m) == w;
        lemma_path_word_injective(nodes, edges, m, n);
    }
}

/// A word that no node spells is no member.
pub proof fn lemma_no_path_no_member(
    nodes: Seq<bool>,
    edges: Seq<(u32, u32, char)>,
    w: Seq<char>,
    k: int,
)
    requires
        tree_shaped(nodes, edges),
        0 <= k <= w.len(),
        !has_path(edges, w.take(k)),
    ensures
        !words(nodes, edges).contains(w),
{
    if spells(nodes, edges, w) {
        let m = choose|m: int| 0 <= m < nodes.len() && nodes[m] && #[trigger] path_word(edges, m) == w;
        lemma_prefix_has_path(nodes, edges, m, k);
    }
}

/// Flagging a node adds its word to the members and changes nothing else.
pub proof fn lemma_flag_adds_word(nodes: Seq<bool>, edges: Seq<(u32, u32, char)>, n: int)
    requires
        0 <= n < nodes.len(),
    ensures
        words(nodes.update(n, true), edges) == words(nodes, edges).insert(path_word(edges, n)),
{
    let raised = nodes.update(n, true);
    let w = path_word(edges, n);
    assert forall|v: Seq<char>| spells(raised, edges, v) <==> (v == w || spells(nodes, edges, v)) by {
        if spells(raised, edges, v) {
            let m = choose|m: int| 0 <= m < raised.len() && raised[m] && #[trigger] path_word(edges, m) == v;
            if m != n {
                assert(nodes[m]);
            }
        }
        if spells(nodes, edges, v) {
            let m = choose|m: int| 0 <= m < nodes.len() && nodes[m] && #[trigger] path_word(edges, m) == v;
            assert(raised[m]);
        }
        if v == w {
            assert(raised[n]);
        }
    }
    assert(words(raised, edges) =~= words(nodes, edges).insert(w));
}

/// Hanging a new, unflagged leaf under `parent` keeps the tree a tree with
/// distinct labels, keeps every word of every node, and keeps the members.
pub proof fn lemma_grow(
    nodes: Seq<bool>,
    edges: Seq<(u32, u32, char)>,
    parent: u32,
    letter: char,
)
    requires
        tree_shaped(nodes, edges),
        distinct_labels(edges),
        parent < nodes.len(),
        nodes.len() < u32::MAX,
        forall|e: int|
            0 <= e < edges.len() ==> !((#[trigger] edges[e]).0 == parent && edges[e].2 == letter),
    ensures
        tree_shaped(nodes.push(false), edges.push((parent, nodes.len() as u32, letter))),
        distinct_labels(edges.push((parent, nodes.len() as u32, letter))),
        words(nodes.push(false), edges.push((parent, nodes.len() as u32, letter))) == words(
            nodes,
            edges,
        ),
        count_set(nodes.push(false)) == count_set(nodes),
        path_word(edges.push((parent, nodes.len() as u32, letter)), nodes.len() as int)
            == path_word(edges, parent as int).push(letter),
        forall|n: int|
            0 <= n < nodes.len() ==> #[trigger] path_word(
                edges.push((parent, nodes.len() as u32, letter)),
                n,
            ) == path_word(edges, n),
{
    let leaf = (parent, nodes.len() as u32, letter);
    let grown_nodes = nodes.push(false);
    let grown = edges.push(leaf);
    assert(grown =~= edges + seq![leaf]);
    assert forall|n: int| 0 <= n < nodes.len() implies #[trigger] path_word(grown, n) == path_word(
        edges,
        n,
    ) by {
        lemma_path_word_stable(edges, seq![leaf], n);
    }
    assert(tree_shaped(grown_nodes, grown));
    lemma_path_word_step(grown_nodes, grown, edges.len() as int);
    lemma_count_set_push(nodes, false);
    assert forall|v: Seq<char>| spells(grown_nodes, grown, v) <==> spells(nodes, edges, v) by {
        if spells(grown_nodes, grown, v) {
            let m = choose|m: int|
                0 <= m < grown_nodes.len() && grown_nodes[m] && #[trigger] path_word(grown, m) == v;
            assert(nodes[m] && path_word(edges, m) == v);
        }
        if spells(nodes, edges, v) {
            let m = choose|m: int| 0 <= m < nodes.len() && nodes[m] && #[trigger] path_word(edges, m) == v;
            assert(grown_nodes[m] && path_word(grown, m) == v);
        }
    }
    assert(words(grown_nodes, grown) =~= words(nodes, edges));
}

/// What a scan of a node's outgoing edges finds is what the edge list holds.
pub proof fn lemma_out_edges(
    edges: Seq<(u32, u32, char)>,
    node: u32,
    out: Seq<(u32, char)>,
    target: u32,
    letter: char,
)
    requires
        out.to_multiset() == edges_from(edges, node).to_multiset(),
    ensures
        out.contains((target, letter)) <==> edges.contains((node, target, letter)),
{
    let kept = edges.filter(leaves(node));
    let from = edges_from(edges, node);
    to_multiset_contains(out, (target, letter));
    to_multiset_contains(from, (target, letter));
    if from.contains((target, letter)) {
        let i = choose|i: int| 0 <= i < from.len() && from[i] == (target, letter);
        edges.lemma_filter_pred(leaves(node), i);
        assert(kept.contains(kept[i]));
        edges.lemma_filter_contains_rev(leaves(node), kept[i]);
        assert(kept[i] == (node, target, letter));
    }
    if edges.contains((node, target, letter)) {
        let e = choose|e: int| 0 <= e < edges.len() && edges[e] == (node, target, letter);
        edges.lemma_filter_contains(leaves(node), e);
        let i = choose|i: int| 0 <= i < kept.len() && kept[i] == edges[e];
        assert(from[i] == (target, letter));
    }
}


/// A tree of the root alone has no branch.
pub proof fn lemma_live_root(nodes: Seq<bool>, edges: Seq<(u32, u32, char)>)
    requires
        nodes.len() <= 1,
    ensures
        live(nodes, edges),
{
}

/// A tree in which no branch ends without a word is held by any word.
pub proof fn lemma_live_held(nodes: Seq<bool>, edges: Seq<(u32, u32, char)>, w: Seq<char>)
    requires
        live(nodes, edges),
    ensures
        held(nodes, edges, w),
{
}

/// A longer word holds what a shorter one held.
pub proof fn lemma_held_longer(
    nodes: Seq<bool>,
    edges: Seq<(u32, u32, char)>,
    w: Seq<char>,
    longer: Seq<char>,
)
    requires
        held(nodes, edges, w),
        w.is_prefix_of(longer),
    ensures
        held(nodes, edges, longer),
{
    assert forall|n: int| 0 < n < nodes.len() implies starts_word(
        nodes,
        edges,
        #[trigger] path_word(edges, n),
    ) || path_word(edges, n).is_prefix_of(longer) by {
        let p = path_word(edges, n);
        if p.is_prefix_of(w) {
            assert(p =~= longer.subrange(0, p.len() as int));
        }
    }
}

/// A new leaf under the node that spells `w` is held by `w` and the
/// leaf's letter.
pub proof fn lemma_grow_held(
    nodes: Seq<bool>,
    edges: Seq<(u32, u32, char)>,
    parent: u32,
    letter: char,
)
    requires
        tree_shaped(nodes, edges),
        parent < nodes.len(),
        nodes.len() < u32::MAX,
        held(nodes, edges, path_word(edges, parent as int)),
    ensures
        held(
            nodes.push(false),
            edges.push((parent, nodes.len() as u32, letter)),
            path_word(edges, parent as int).push(letter),
        ),
{
    let leaf = (parent, nodes.len() as u32, letter);
    let grown_nodes = nodes.push(false);
    let grown = edges.push(leaf);
    let w = path_word(edges, parent as int);
    assert(grown =~= edges + seq![leaf]);
    assert forall|n: int| 0 <= n < nodes.len() implies #[trigger] path_word(grown, n) == path_word(
        edges,
        n,
    ) by {
        lemma_path_word_stable(edges, seq![leaf], n);
    }
    assert(tree_shaped(grown_nodes, grown));
    lemma_path_word_step(grown_nodes, grown, edges.len() as int);
    assert forall|n: int| 0 < n < grown_nodes.len() implies starts_word(
        grown_nodes,
        grown,
        #[trigger] path_word(grown, n),
    ) || path_word(grown, n).is_prefix_of(w.push(letter)) by {
        let p = path_word(grown, n);
        if n < nodes.len() {
            assert(p == path_word(edges, n));
            if starts_word(nodes, edges, p) {
                let m = choose|m: int|
                    0 <= m < nodes.len() && nodes[m] && p.is_prefix_of(
                        #[trigger] path_word(edges, m),
                    );
                assert(grown_nodes[m] && p.is_prefix_of(path_word(grown, m)));
            } else {
                assert(p.is_prefix_of(w));
                assert(p =~= w.push(letter).subrange(0, p.len() as int));
            }
        } else {
            assert(p =~= w.push(letter).subrange(0, p.len() as int));
        }
    }
}

/// Flagging the node that spells `w` leaves no branch without a word, if
/// `w` held the tree.
pub proof fn lemma_flag_settles(nodes: Seq<bool>, edges: Seq<(u32, u32, char)>, node: int)
    requires
        0 <= node < nodes.len(),
        held(nodes, edges, path_word(edges, node)),
    ensures
        live(nodes.update(node, true), edges),
{
    let raised = nodes.update(node, true);
    assert forall|n: int| 0 < n < raised.len() implies starts_word(
        raised,
        edges,
        #[trigger] path_word(edges, n),
    ) by {
        let p = path_word(edges, n);
        if starts_word(nodes, edges, p) {
            let m = choose|m: int|
                0 <= m < nodes.len() && nodes[m] && p.is_prefix_of(#[trigger] path_word(edges, m));
            assert(raised[m]);
        } else {
            assert(raised[node] && p.is_prefix_of(path_word(edges, node)));
        }
    }
}

/// The nodes from 1 to `k` spell `k` different words.
pub proof fn lemma_spelled_count(nodes: Seq<bool>, edges: Seq<(u32, u32, char)>, k: int)
    requires
        tree_shaped(nodes, edges),
        distinct_labels(edges),
        0 <= k < nodes.len(),
    ensures
        spelled(edges, k).finite(),
        spelled(edges, k).len() == k,
    decreases k,
{
    if k == 0 {
        assert(spelled(edges, 0) =~= Set::<Seq<char>>::empty());
    } else {
        lemma_spelled_count(nodes, edges, k - 1);
        let w = path_word(edges, k);
        if spelled(edges, k - 1).contains(w) {
            let n = choose|n: int| 0 < n <= k - 1 && #[trigger] path_word(edges, n) == w;
            lemma_path_word_injective(nodes, edges, n, k);
        }
        assert forall|p: Seq<char>| spelled(edges, k).contains(p) <==> spelled(edges, k - 1).insert(
            w,
        ).contains(p) by {
            if spelled(edges, k).contains(p) {
                let n = choose|n: int| 0 < n <= k && #[trigger] path_word(edges, n) == p;
                if n < k {
                    assert(spelled(edges, k - 1).contains(p));
                }
            }
            if spelled(edges, k - 1).contains(p) {
                let n = choose|n: int| 0 < n <= k - 1 && #[trigger] path_word(edges, n) == p;
                assert(0 < n <= k);
            }
        }
        assert(spelled(edges, k) =~= spelled(edges, k - 1).insert(w));
    }
}

/// The beginning of a member is spelled by a node other than the root.
proof fn lemma_prefix_is_spelled(nodes: Seq<bool>, edges: Seq<(u32, u32, char)>, p: Seq<char>)
    requires
        tree_shaped(nodes, edges),
        prefixes(words(nodes, edges)).contains(p),
    ensures
        spelled(edges, nodes.len() - 1).contains(p),
{
    let members = words(nodes, edges);
    let w = choose|w: Seq<char>| members.contains(w) && p.is_prefix_of(w);
    let m = choose|m: int| 0 <= m < nodes.len() && nodes[m] && #[trigger] path_word(edges, m) == w;
    lemma_prefix_has_path(nodes, edges, m, p.len() as int);
    assert(w.take(p.len() as int) =~= p);
    let n = choose|n: int| 0 <= n <= edges.len() && #[trigger] path_word(edges, n) == p;
    lemma_path_word_empty(nodes, edges, n);
    assert(0 < n <= nodes.len() - 1 && path_word(edges, n) == p);
}

/// What a node other than the root spells is the beginning of a member,
/// where no branch ends without a word.
proof fn lemma_spelled_is_prefix(nodes: Seq<bool>, edges: Seq<(u32, u32, char)>, p: Seq<char>)
    requires
        tree_shaped(nodes, edges),
        live(nodes, edges),
        spelled(edges, nodes.len() - 1).contains(p),
    ensures
        prefixes(words(nodes, edges)).contains(p),
{
    let n = choose|n: int| 0 < n <= nodes.len() - 1 && #[trigger] path_word(edges, n) == p;
    lemma_path_word_empty(nodes, edges, n);
    assert(starts_word(nodes, edges, path_word(edges, n)));
    let m = choose|m: int|
        0 <= m < nodes.len() && nodes[m] && p.is_prefix_of(#[trigger] path_word(edges, m));
    let w = path_word(edges, m);
    assert(spells(nodes, edges, w));
    assert(words(nodes, edges).contains(w) && p.is_prefix_of(w));
}

/// Where no branch ends without a word, the nodes but the root spell the
/// beginnings of the members, each one once: the tree has one node more
/// than its members have beginnings.
pub proof fn lemma_nodes_are_prefixes(nodes: Seq<bool>, edges: Seq<(u32, u32, char)>)
    requires
        tree_shaped(nodes, edges),
        distinct_labels(edges),
        live(nodes, edges),
    ensures
        prefixes(words(nodes, edges)) == spelled(edges, nodes.len() - 1),
        prefixes(words(nodes, edges)).finite(),
        prefixes(words(nodes, edges)).len() + 1 == nodes.len(),
{
    let begun = prefixes(words(nodes, edges));
    let top = nodes.len() - 1;
    assert forall|p: Seq<char>| begun.contains(p) <==> spelled(edges, top).contains(p) by {
        if begun.contains(p) {
            lemma_prefix_is_spelled(nodes, edges, p);
        }
        if spelled(edges, top).contains(p) {
            lemma_spelled_is_prefix(nodes, edges, p);
        }
    }
    assert(begun =~= spelled(edges, top));
    lemma_spelled_count(nodes, edges, top);
}

/// The reach of a word is the length of a beginning that has a path.
pub proof fn lemma_reach_has_path(edges: Seq<(u32, u32, char)>, w: Seq<char>)
    ensures
        reach(edges, w) <= w.len(),
        has_path(edges, w.take(reach(edges, w) as int)),
    decreases w.len(),
{
    if w.len() == 0 {
        assert(path_word(edges, 0) =~= w.take(0));
    } else if has_path(edges, w) {
        assert(w.take(w.len() as int) =~= w);
    } else {
        lemma_reach_has_path(edges, w.drop_last());
        assert(w.drop_last().take(reach(edges, w) as int) =~= w.take(reach(edges, w) as int));
    }
}

/// A beginning of `w` within its reach is the beginning of a member.
proof fn lemma_beginning_known(
    nodes: Seq<bool>,
    edges: Seq<(u32, u32, char)>,
    w: Seq<char>,
    k: int,
)
    requires
        tree_shaped(nodes, edges),
        live(nodes, edges),
        0 < k <= reach(edges, w),
    ensures
        prefixes(words(nodes, edges)).contains(w.take(k)),
{
    let r = reach(edges, w) as int;
    lemma_reach_has_path(edges, w);
    let n = choose|n: int| 0 <= n <= edges.len() && #[trigger] path_word(edges, n) == w.take(r);
    lemma_prefix_has_path(nodes, edges, n, k);
    assert(w.take(r).take(k) =~= w.take(k));
    let m = choose|m: int| 0 <= m <= edges.len() && #[trigger] path_word(edges, m) == w.take(k);
    lemma_path_word_empty(nodes, edges, m);
    assert(0 < m <= nodes.len() - 1 && path_word(edges, m) == w.take(k));
    lemma_spelled_is_prefix(nodes, edges, w.take(k));
}

/// A beginning of `w` beyond its reach is the beginning of no member.
proof fn lemma_beginning_new(
    nodes: Seq<bool>,
    edges: Seq<(u32, u32, char)>,
    w: Seq<char>,
    k: int,
)
    requires
        tree_shaped(nodes, edges),
        reach(edges, w) < k <= w.len(),
    ensures
        !prefixes(words(nodes, edges)).contains(w.take(k)),
{
    if prefixes(words(nodes, edges)).contains(w.take(k)) {
        lemma_prefix_is_spelled(nodes, edges, w.take(k));
        let n = choose|n: int| 0 < n <= nodes.len() - 1 && #[trigger] path_word(edges, n) == w.take(k);
        assert(has_path(edges, w.take(k)));
        lemma_reach_lower(edges, w, k);
    }
}

/// The beginnings of the members and those of `w` of at most `upto`
/// letters: each letter of `w` beyond its reach adds one.
proof fn lemma_grown_count(nodes: Seq<bool>, edges: Seq<(u32, u32, char)>, w: Seq<char>, upto: int)
    requires
        tree_shaped(nodes, edges),
        distinct_labels(edges),
        live(nodes, edges),
        reach(edges, w) <= upto <= w.len(),
    ensures
        prefixes(words(nodes, edges)).union(beginnings(w, upto)).finite(),
        prefixes(words(nodes, edges)).union(beginnings(w, upto)).len() == nodes.len() - 1 + (upto
            - reach(edges, w)),
    decreases upto,
{
    let known = prefixes(words(nodes, edges));
    let r = reach(edges, w) as int;
    lemma_nodes_are_prefixes(nodes, edges);
    if upto == r {
        assert forall|p: Seq<char>| beginnings(w, upto).contains(p) implies known.contains(p) by {
            let k = choose|k: int| 0 < k <= upto && k <= w.len() && p == #[trigger] w.take(k);
            lemma_beginning_known(nodes, edges, w, k);
        }
        assert(known.union(beginnings(w, upto)) =~= known);
    } else {
        lemma_grown_count(nodes, edges, w, upto - 1);
        let before = known.union(beginnings(w, upto - 1));
        let next = w.take(upto);
        lemma_beginning_new(nodes, edges, w, upto);
        if beginnings(w, upto - 1).contains(next) {
            let k = choose|k: int| 0 < k <= upto - 1 && k <= w.len() && next == #[trigger] w.take(k);
            assert(w.take(k).len() == k);
        }
        assert forall|p: Seq<char>| known.union(beginnings(w, upto)).contains(p)
            <==> before.insert(next).contains(p) by {
            if beginnings(w, upto).contains(p) {
                let k = choose|k: int| 0 < k <= upto && k <= w.len() && p == #[trigger] w.take(k);
                if k < upto {
                    assert(beginnings(w, upto - 1).contains(p));
                }
            }
            if beginnings(w, upto - 1).contains(p) {
                let k = choose|k: int| 0 < k <= upto - 1 && k <= w.len() && p == #[trigger] w.take(k);
                assert(0 < k <= upto);
            }
            if p == next {
                assert(beginnings(w, upto).contains(w.take(upto)));
            }
        }
        assert(known.union(beginnings(w, upto)) =~= before.insert(next));
    }
}

/// What an insertion needs: the members and `w` together have as many
/// beginnings as the tree has nodes but the root, and one more for each
/// letter of `w` beyond its reach.
pub proof fn lemma_prefixes_after(nodes: Seq<bool>, edges: Seq<(u32, u32, char)>, w: Seq<char>)
    requires
        tree_shaped(nodes, edges),
        distinct_labels(edges),
        live(nodes, edges),
    ensures
        reach(edges, w) <= w.len(),
        prefixes(with_word(words(nodes, edges), w)).finite(),
        prefixes(with_word(words(nodes, edges), w)).len() == nodes.len() - 1 + (w.len() - reach(
            edges,
            w,
        )),
{
    lemma_reach_has_path(edges, w);
    lemma_prefixes_with_word(words(nodes, edges), w);
    lemma_grown_count(nodes, edges, w, w.len() as int);
}

} // verus!
