//! The greedy Huffman merge: a queue of weighted trees is reduced by
//! repeatedly extracting the two lightest trees and pushing their merge,
//! until a single root remains.
//!
//! The priority discipline is a min-queue on weight. Ties are broken
//! deterministically: among equally light trees the one closest to the front
//! of the queue wins, leaves having been enqueued in first-appearance order
//! and merged trees appended at the back.

use vstd::prelude::*;

use vstd::multiset::Multiset;

use crate::freq::HuffmanError;
use crate::freq::ProbTable;

verus! {

/// A node of the merge tree: a leaf carrying one symbol, or an internal node
/// owning two subtrees. Leafness is structural — there is no sentinel label.
/// `weight` aggregates the counts of every symbol in the subtree.
pub enum Node {
    Leaf { weight: usize, symbol: char },
    Internal { weight: usize, left: Box<Node>, right: Box<Node> },
}

pub open spec fn weight_of(n: Node) -> usize {
    match n {
        Node::Leaf { weight, .. } => weight,
        Node::Internal { weight, .. } => weight,
    }
}

/// The symbols at the leaves, left to right.
pub open spec fn leaves_of(n: Node) -> Seq<char>
    decreases n,
{
    match n {
        Node::Leaf { symbol, .. } => seq![symbol],
        Node::Internal { left, right, .. } => leaves_of(*left) + leaves_of(*right),
    }
}

/// Height of the tree: a leaf has height zero.
pub open spec fn height_of(n: Node) -> nat
    decreases n,
{
    match n {
        Node::Leaf { .. } => 0,
        Node::Internal { left, right, .. } => 1 + if height_of(*left) >= height_of(*right) {
            height_of(*left)
        } else {
            height_of(*right)
        },
    }
}

impl Node {
    pub fn weight(&self) -> (w: usize)
        ensures
            w == weight_of(*self),
    {
        match self {
            Node::Leaf { weight, .. } => *weight,
            Node::Internal { weight, .. } => *weight,
        }
    }
}

/// The internal node that merges `a` and `b`, `a` becoming the left child.
pub open spec fn combine(a: Node, b: Node) -> Node {
    Node::Internal {
        weight: (weight_of(a) + weight_of(b)) as usize,
        left: Box::new(a),
        right: Box::new(b),
    }
}

/// `i` is the position of the tree extracted next: minimal weight, and the
/// first such position — the documented tie-break.
pub open spec fn is_first_min(s: Seq<Node>, i: int) -> bool {
    &&& 0 <= i < s.len()
    &&& forall|k: int| 0 <= k < s.len() ==> weight_of(#[trigger] s[k]) >= weight_of(s[i])
    &&& forall|k: int| 0 <= k < i ==> weight_of(#[trigger] s[k]) > weight_of(s[i])
}

pub open spec fn min_index(s: Seq<Node>) -> int {
    choose|i: int| is_first_min(s, i)
}

pub proof fn lemma_first_min_exists(s: Seq<Node>)
    requires
        s.len() >= 1,
    ensures
        0 <= min_index(s) < s.len(),
        is_first_min(s, min_index(s)),
    decreases s.len(),
{
    if s.len() == 1 {
        assert(is_first_min(s, 0));
    } else {
        let r = s.drop_first();
        lemma_first_min_exists(r);
        let j = min_index(r);
        assert(forall|k: int| 1 <= k < s.len() ==> #[trigger] s[k] == r[k - 1]);
        if weight_of(s[0]) <= weight_of(r[j]) {
            assert(is_first_min(s, 0));
        } else {
            assert(is_first_min(s, j + 1));
        }
    }
    assert(is_first_min(s, min_index(s)));
}

pub proof fn lemma_first_min_unique(s: Seq<Node>, i: int)
    requires
        is_first_min(s, i),
    ensures
        min_index(s) == i,
{
    assert(is_first_min(s, min_index(s)));
    let w = min_index(s);
    if w < i {
        assert(weight_of(s[w]) > weight_of(s[i]));
        assert(weight_of(s[i]) >= weight_of(s[w]));
    } else if i < w {
        assert(weight_of(s[i]) > weight_of(s[w]));
        assert(weight_of(s[w]) >= weight_of(s[i]));
    }
}

/// Total weight of the queue.
pub open spec fn sum_weights(s: Seq<Node>) -> int
    decreases s.len(),
{
    if s.len() == 0 {
        0
    } else {
        sum_weights(s.drop_last()) + weight_of(s.last())
    }
}

pub proof fn lemma_sum_weights_remove(s: Seq<Node>, i: int)
    requires
        0 <= i < s.len(),
    ensures
        sum_weights(s.remove(i)) == sum_weights(s) - weight_of(s[i]),
    decreases s.len(),
{
    if i == s.len() - 1 {
        assert(s.remove(i) =~= s.drop_last());
    } else {
        assert(s.remove(i).drop_last() =~= s.drop_last().remove(i));
        assert(s.remove(i).last() == s.last());
        lemma_sum_weights_remove(s.drop_last(), i);
    }
}

pub proof fn lemma_sum_weights_push(s: Seq<Node>, n: Node)
    ensures
        sum_weights(s.push(n)) == sum_weights(s) + weight_of(n),
{
    assert(s.push(n).drop_last() =~= s);
}

pub proof fn lemma_sum_weights_nonneg(s: Seq<Node>)
    ensures
        sum_weights(s) >= 0,
    decreases s.len(),
{
    if s.len() > 0 {
        lemma_sum_weights_nonneg(s.drop_last());
    }
}

/// The result of running the merge loop on queue `s` until one tree is left.
///
/// The two inner guards can never be false — a non-empty queue has a first
/// minimum (`lemma_first_min_exists`) — but they make the recursion's
/// termination measure evident to the verifier.
pub open spec fn merge_loop(s: Seq<Node>) -> Node
    decreases s.len(),
{
    if s.len() <= 1 {
        s[0]
    } else {
        let i = min_index(s);
        if 0 <= i < s.len() {
            let rest = s.remove(i);
            let j = min_index(rest);
            if 0 <= j < rest.len() {
                merge_loop(rest.remove(j).push(combine(s[i], rest[j])))
            } else {
                s[0]
            }
        } else {
            s[0]
        }
    }
}

/// The leaf for one table entry, weighted by the entry's numerator (count).
pub open spec fn leaf_for(p: (char, usize)) -> Node {
    Node::Leaf { weight: p.1, symbol: p.0 }
}

/// One leaf per table entry, in table order.
pub open spec fn leaf_nodes(entries: Seq<(char, usize)>) -> Seq<Node>
    decreases entries.len(),
{
    if entries.len() == 0 {
        Seq::empty()
    } else {
        leaf_nodes(entries.drop_last()).push(leaf_for(entries.last()))
    }
}

pub proof fn lemma_leaf_nodes(entries: Seq<(char, usize)>)
    ensures
        leaf_nodes(entries).len() == entries.len(),
        forall|i: int|
            0 <= i < entries.len() ==> #[trigger] leaf_nodes(entries)[i] == (Node::Leaf {
                weight: entries[i].1,
                symbol: entries[i].0,
            }),
    decreases entries.len(),
{
    if entries.len() > 0 {
        lemma_leaf_nodes(entries.drop_last());
        assert forall|i: int|
            0 <= i < entries.len() implies #[trigger] leaf_nodes(entries)[i] == (Node::Leaf {
            weight: entries[i].1,
            symbol: entries[i].0,
        }) by {
            if i < entries.len() - 1 {
                assert(entries.drop_last()[i] == entries[i]);
                assert(leaf_nodes(entries)[i] == leaf_nodes(entries.drop_last())[i]);
            } else {
                assert(leaf_nodes(entries)[i] == (Node::Leaf {
                    weight: entries.last().1,
                    symbol: entries.last().0,
                }));
            }
        }
    }
}

/// Position of the tree to extract next: lightest weight, earliest position
/// on ties.
fn find_min(queue: &Vec<Node>) -> (r: usize)
    requires
        queue@.len() >= 1,
    ensures
        is_first_min(queue@, r as int),
{
    let mut best: usize = 0;
    let mut k: usize = 1;
    while k < queue.len()
        invariant
            1 <= k <= queue@.len(),
            0 <= best < k,
            forall|t: int|
                0 <= t < k ==> weight_of(#[trigger] queue@[t]) >= weight_of(queue@[best as int]),
            forall|t: int|
                0 <= t < best ==> weight_of(#[trigger] queue@[t]) > weight_of(queue@[best as int]),
        decreases queue@.len() - k,
    {
        if queue[k].weight() < queue[best].weight() {
            best = k;
        }
        k = k + 1;
    }
    best
}

/// Build the merge tree for a non-empty probability table by the greedy
/// Huffman algorithm; an empty table has no tree and is rejected.
///
/// Leaves enter the queue in table order, so ties in weight resolve by first
/// appearance in the input text.
pub fn build(probs: &ProbTable) -> (r: Result<Node, HuffmanError>)
    requires
        sum_weights(leaf_nodes(probs.entries@)) <= usize::MAX,
    ensures
        probs.entries@.len() == 0 ==> r == Err::<Node, HuffmanError>(HuffmanError::EmptyAlphabet),
        probs.entries@.len() > 0 ==> (r matches Ok(n) && n == merge_loop(
            leaf_nodes(probs.entries@),
        )),
{
    if probs.entries.len() == 0 {
        return Err(HuffmanError::EmptyAlphabet);
    }
    let mut queue: Vec<Node> = Vec::new();
    let mut i: usize = 0;
    proof {
        assert(leaf_nodes(probs.entries@.take(0)) =~= Seq::<Node>::empty());
    }
    while i < probs.entries.len()
        invariant
            0 <= i <= probs.entries@.len(),
            queue@ == leaf_nodes(probs.entries@.take(i as int)),
        decreases probs.entries@.len() - i,
    {
        let pair = probs.entries[i];
        queue.push(Node::Leaf { weight: pair.1, symbol: pair.0 });
        proof {
            assert(probs.entries@.take(i + 1).drop_last() =~= probs.entries@.take(i as int));
            assert(probs.entries@.take(i + 1).last() == probs.entries@[i as int]);
            assert(queue@ =~= leaf_nodes(probs.entries@.take(i + 1)));
        }
        i = i + 1;
    }
    proof {
        assert(probs.entries@.take(probs.entries@.len() as int) =~= probs.entries@);
        lemma_leaf_nodes(probs.entries@);
    }
    let ghost start = leaf_nodes(probs.entries@);
    while queue.len() > 1
        invariant
            queue@.len() >= 1,
            sum_weights(queue@) == sum_weights(start),
            sum_weights(start) <= usize::MAX,
            merge_loop(queue@) == merge_loop(start),
        decreases queue@.len(),
    {
        let ghost q0 = queue@;
        let i = find_min(&queue);
        let a = queue.remove(i);
        let ghost q1 = queue@;
        let j = find_min(&queue);
        let b = queue.remove(j);
        let ghost q2 = queue@;
        proof {
            lemma_first_min_unique(q0, i as int);
            lemma_first_min_unique(q1, j as int);
            lemma_sum_weights_remove(q0, i as int);
            lemma_sum_weights_remove(q1, j as int);
            lemma_sum_weights_nonneg(q2);
        }
        let w = a.weight() + b.weight();
        let merged = Node::Internal { weight: w, left: Box::new(a), right: Box::new(b) };
        queue.push(merged);
        proof {
            lemma_sum_weights_push(q2, merged);
            assert(merged == combine(q0[i as int], q1[j as int]));
            assert(merge_loop(q0) == merge_loop(queue@));
        }
    }
    let root = queue.remove(0);
    Ok(root)
}

/// Multiset of the leaf symbols of a queue of trees.
pub open spec fn forest_leaves(s: Seq<Node>) -> Multiset<char>
    decreases s.len(),
{
    if s.len() == 0 {
        Multiset::empty()
    } else {
        forest_leaves(s.drop_last()).add(leaves_of(s.last()).to_multiset())
    }
}

proof fn lemma_forest_leaves_push(s: Seq<Node>, n: Node)
    ensures
        forest_leaves(s.push(n)) == forest_leaves(s).add(leaves_of(n).to_multiset()),
{
    assert(s.push(n).drop_last() =~= s);
}

proof fn lemma_forest_leaves_remove(s: Seq<Node>, i: int)
    requires
        0 <= i < s.len(),
    ensures
        forest_leaves(s) == forest_leaves(s.remove(i)).add(leaves_of(s[i]).to_multiset()),
    decreases s.len(),
{
    if i == s.len() - 1 {
        assert(s.remove(i) =~= s.drop_last());
    } else {
        assert(s.remove(i).drop_last() =~= s.drop_last().remove(i));
        assert(s.remove(i).last() == s.last());
        lemma_forest_leaves_remove(s.drop_last(), i);
        assert(forest_leaves(s) =~= forest_leaves(s.remove(i)).add(
            leaves_of(s[i]).to_multiset(),
        ));
    }
}

/// The merge loop neither invents nor loses a symbol: the leaves of the
/// resulting tree are exactly the leaves the queue started with.
pub proof fn lemma_merge_loop_leaves(s: Seq<Node>)
    requires
        s.len() >= 1,
    ensures
        leaves_of(merge_loop(s)).to_multiset() == forest_leaves(s),
    decreases s.len(),
{
    if s.len() == 1 {
        reveal_with_fuel(forest_leaves, 2);
        assert(s.drop_last().len() == 0);
        assert(forest_leaves(s) =~= leaves_of(s[0]).to_multiset());
    } else {
        lemma_first_min_exists(s);
        let i = min_index(s);
        let rest = s.remove(i);
        lemma_first_min_exists(rest);
        let j = min_index(rest);
        let merged = combine(s[i], rest[j]);
        let s2 = rest.remove(j).push(merged);
        lemma_forest_leaves_remove(s, i);
        lemma_forest_leaves_remove(rest, j);
        lemma_forest_leaves_push(rest.remove(j), merged);
        vstd::seq_lib::lemma_multiset_commutative(leaves_of(s[i]), leaves_of(rest[j]));
        lemma_merge_loop_leaves(s2);
        assert(merge_loop(s) == merge_loop(s2));
        assert(forest_leaves(s2) =~= forest_leaves(s));
    }
}

/// A symbol is in the leaf multiset of the starting queue exactly when some
/// table entry carries it.
pub proof fn lemma_leaf_nodes_symbols(entries: Seq<(char, usize)>, c: char)
    ensures
        forest_leaves(leaf_nodes(entries)).count(c) > 0 <==> exists|k: int|
            0 <= k < entries.len() && entries[k].0 == c,
    decreases entries.len(),
{
    broadcast use vstd::seq_lib::group_to_multiset_ensures;

    if entries.len() == 0 {
    } else {
        lemma_leaf_nodes_symbols(entries.drop_last(), c);
        lemma_forest_leaves_push(leaf_nodes(entries.drop_last()), leaf_for(entries.last()));
        assert(leaves_of(leaf_for(entries.last())) == seq![entries.last().0]);
        assert(seq![entries.last().0][0] == entries.last().0);
        if seq![entries.last().0].contains(c) {
            let w = choose|w: int| 0 <= w < 1 && seq![entries.last().0][w] == c;
            assert(w == 0);
        }
        assert(seq![entries.last().0].contains(c) <==> entries.last().0 == c);
        if forest_leaves(leaf_nodes(entries)).count(c) > 0 {
            if forest_leaves(leaf_nodes(entries.drop_last())).count(c) > 0 {
                let k = choose|k: int|
                    0 <= k < entries.drop_last().len() && entries.drop_last()[k].0 == c;
                assert(entries[k].0 == c);
            } else {
                assert(entries[entries.len() - 1].0 == c);
            }
        }
        if exists|k: int| 0 <= k < entries.len() && entries[k].0 == c {
            let k = choose|k: int| 0 <= k < entries.len() && entries[k].0 == c;
            if k < entries.len() - 1 {
                assert(entries.drop_last()[k].0 == c);
            } else {
                assert(seq![entries.last().0].to_multiset().count(c) > 0);
            }
        }
    }
}

/// Index in the original queue of the second tree the step extracts.
pub open spec fn second_orig(s: Seq<Node>) -> int {
    let j = min_index(s.remove(min_index(s)));
    if j < min_index(s) {
        j
    } else {
        j + 1
    }
}

/// The queue after one merge step.
pub open spec fn next_queue(s: Seq<Node>) -> Seq<Node> {
    let i = min_index(s);
    let rest = s.remove(i);
    let j = min_index(rest);
    rest.remove(j).push(combine(s[i], rest[j]))
}

/// Where a surviving tree at position `t` stands after one step.
pub open spec fn next_pos(s: Seq<Node>, t: int) -> int {
    t - (if t > min_index(s) {
        1int
    } else {
        0int
    }) - (if t > second_orig(s) {
        1int
    } else {
        0int
    })
}

/// How deep the root of the `t`-th queue entry ends up in the finished tree:
/// the number of merges its lineage still undergoes.
pub open spec fn fdepth(s: Seq<Node>, t: int) -> int
    decreases s.len(),
{
    if s.len() <= 1 {
        0
    } else {
        let i = min_index(s);
        if 0 <= i < s.len() {
            let j = min_index(s.remove(i));
            if 0 <= j < s.len() - 1 {
                if t == i || t == second_orig(s) {
                    1 + fdepth(next_queue(s), s.len() - 2)
                } else {
                    fdepth(next_queue(s), next_pos(s, t))
                }
            } else {
                0
            }
        } else {
            0
        }
    }
}

/// The queue position, before a step, of the survivor that stands at
/// position `k` after it.
pub open spec fn orig_pos(s: Seq<Node>, k: int) -> int {
    let i = min_index(s);
    let j = min_index(s.remove(i));
    let kr = if k < j {
        k
    } else {
        k + 1
    };
    if kr < i {
        kr
    } else {
        kr + 1
    }
}

/// Everything one merge step guarantees: bounds of the two selected
/// positions, how survivors shift, and what the merged tree weighs.
proof fn lemma_step(s: Seq<Node>)
    requires
        s.len() >= 2,
        sum_weights(s) <= usize::MAX,
    ensures
        0 <= min_index(s) < s.len(),
        0 <= second_orig(s) < s.len(),
        second_orig(s) != min_index(s),
        0 <= min_index(s.remove(min_index(s))) < s.len() - 1,
        s.remove(min_index(s))[min_index(s.remove(min_index(s)))] == s[second_orig(s)],
        next_queue(s).len() == s.len() - 1,
        merge_loop(s) == merge_loop(next_queue(s)),
        sum_weights(next_queue(s)) == sum_weights(s),
        next_queue(s)[s.len() - 2] == combine(s[min_index(s)], s[second_orig(s)]),
        weight_of(next_queue(s)[s.len() - 2]) == weight_of(s[min_index(s)]) + weight_of(
            s[second_orig(s)],
        ),
        weight_of(s[min_index(s)]) <= weight_of(s[second_orig(s)]),
        forall|k: int|
            0 <= k < s.len() && k != min_index(s) ==> weight_of(#[trigger] s[k]) >= weight_of(
                s[second_orig(s)],
            ),
        forall|t: int|
            0 <= t < s.len() && t != min_index(s) && t != second_orig(s) ==> 0 <= #[trigger] next_pos(
                s,
                t,
            ) < s.len() - 2,
        forall|t: int|
            0 <= t < s.len() && t != min_index(s) && t != second_orig(s) ==> next_queue(s)[
            #[trigger] next_pos(s, t)] == s[t],
        forall|t1: int, t2: int|
            0 <= t1 < t2 < s.len() && t1 != min_index(s) && t1 != second_orig(s) && t2 != min_index(
                s,
            ) && t2 != second_orig(s) ==> #[trigger] next_pos(s, t1) < #[trigger] next_pos(s, t2),
        forall|k: int|
            0 <= k < s.len() - 2 ==> weight_of(#[trigger] next_queue(s)[k]) >= weight_of(
                s[second_orig(s)],
            ),
        forall|k: int|
            0 <= k < s.len() - 2 ==> 0 <= #[trigger] orig_pos(s, k) < s.len() && orig_pos(s, k)
                != min_index(s) && orig_pos(s, k) != second_orig(s) && next_queue(s)[k] == s[orig_pos(
                s,
                k,
            )] && next_pos(s, orig_pos(s, k)) == k,
{
    lemma_first_min_exists(s);
    let i = min_index(s);
    let rest = s.remove(i);
    lemma_first_min_exists(rest);
    let j = min_index(rest);
    let jo = second_orig(s);
    s.remove_ensures(i);
    rest.remove_ensures(j);
    assert(rest[j] == s[jo]);
    lemma_sum_weights_remove(s, i);
    lemma_sum_weights_remove(rest, j);
    lemma_sum_weights_push(rest.remove(j), combine(s[i], rest[j]));
    lemma_sum_weights_nonneg(rest.remove(j));
    assert(weight_of(s[i]) + weight_of(rest[j]) <= sum_weights(s));
    assert(weight_of(combine(s[i], rest[j])) == weight_of(s[i]) + weight_of(rest[j]));
    assert(weight_of(s[i]) <= weight_of(rest[j]));
    assert forall|k: int|
        0 <= k < s.len() && k != i implies weight_of(#[trigger] s[k]) >= weight_of(
        s[jo],
    ) by {
        if k < i {
            assert(rest[k] == s[k]);
        } else {
            assert(rest[k - 1] == s[k]);
        }
    }
    assert forall|t: int|
        0 <= t < s.len() && t != i && t != jo implies 0 <= #[trigger] next_pos(s, t) < s.len() - 2
            && next_queue(s)[next_pos(s, t)] == s[t] by {
        let tr = if t > i {
            t - 1
        } else {
            t
        };
        assert(rest[tr] == s[t]);
        assert(tr != j);
        let trr = if tr > j {
            tr - 1
        } else {
            tr
        };
        assert(rest.remove(j)[trr] == rest[tr]);
        assert(trr == next_pos(s, t));
        assert(next_queue(s)[trr] == rest.remove(j)[trr]);
    }
    assert forall|k: int|
        0 <= k < s.len() - 2 implies weight_of(#[trigger] next_queue(s)[k]) >= weight_of(
        s[jo],
    ) by {
        assert(next_queue(s)[k] == rest.remove(j)[k]);
        if k < j {
            assert(rest.remove(j)[k] == rest[k]);
        } else {
            assert(rest.remove(j)[k] == rest[k + 1]);
        }
    }
    assert forall|k: int|
        0 <= k < s.len() - 2 implies 0 <= #[trigger] orig_pos(s, k) < s.len() && orig_pos(s, k)
            != i && orig_pos(s, k) != jo && next_queue(s)[k] == s[orig_pos(s, k)] && next_pos(
        s,
        orig_pos(s, k),
    ) == k by {
        let kr = if k < j {
            k
        } else {
            k + 1
        };
        assert(rest.remove(j)[k] == rest[kr]);
        let og = if kr < i {
            kr
        } else {
            kr + 1
        };
        assert(rest[kr] == s[og]);
        assert(og == orig_pos(s, k));
        assert(next_queue(s)[k] == rest.remove(j)[k]);
        assert(next_pos(s, og) == k);
    }
}

/// In any queue whose total weight is representable, a strictly lighter
/// tree — or an equally light one nearer the front, which the tie-break
/// extracts first — ends at least as deep in the finished tree.
pub proof fn lemma_dominant_deeper(s: Seq<Node>, t1: int, t2: int)
    requires
        0 <= t1 < s.len(),
        0 <= t2 < s.len(),
        t1 != t2,
        sum_weights(s) <= usize::MAX,
        weight_of(s[t1]) < weight_of(s[t2]) || (weight_of(s[t1]) == weight_of(s[t2]) && t1 < t2),
    ensures
        fdepth(s, t1) >= fdepth(s, t2),
    decreases s.len(),
{
    lemma_step(s);
    lemma_first_min_exists(s);
    let i = min_index(s);
    let rest = s.remove(i);
    lemma_first_min_exists(rest);
    let j = min_index(rest);
    let jo = second_orig(s);
    let s2 = next_queue(s);
    let m = combine(s[i], s[jo]);
    let last = s.len() - 2;
    assert(s2[last] == m);
    if (t1 == i || t1 == jo) && (t2 == i || t2 == jo) {
        assert(fdepth(s, t1) == 1 + fdepth(s2, last));
        assert(fdepth(s, t2) == 1 + fdepth(s2, last));
    } else if t2 == i {
        assert(weight_of(s[t1]) >= weight_of(s[i]));
        if t1 < i {
            assert(weight_of(s[t1]) > weight_of(s[i]));
        }
        assert(false);
    } else if t2 == jo {
        let t1r = if t1 > i {
            t1 - 1
        } else {
            t1
        };
        s.remove_ensures(i);
        assert(rest[t1r] == s[t1]);
        assert(weight_of(rest[t1r]) >= weight_of(rest[j]));
        if t1 < jo {
            assert(t1r < j);
            assert(weight_of(rest[t1r]) > weight_of(rest[j]));
        }
        assert(false);
    } else if t1 == i || t1 == jo {
        let t2p = next_pos(s, t2);
        assert(fdepth(s, t1) == 1 + fdepth(s2, last));
        assert(fdepth(s, t2) == fdepth(s2, t2p));
        assert(s2[t2p] == s[t2]);
        if weight_of(m) < weight_of(s[t2]) {
            lemma_dominant_deeper(s2, last, t2p);
        } else {
            assert forall|k: int|
                0 <= k < s2.len() && k != last implies 2 * weight_of(#[trigger] s2[k])
                    >= weight_of(s2[last]) by {
                assert(weight_of(s2[k]) >= weight_of(s[jo]));
            }
            lemma_depth_gap(s2, t2p, last);
        }
    } else {
        let t1p = next_pos(s, t1);
        let t2p = next_pos(s, t2);
        assert(s2[t1p] == s[t1]);
        assert(s2[t2p] == s[t2]);
        lemma_dominant_deeper(s2, t1p, t2p);
        assert(fdepth(s, t1) == fdepth(s2, t1p));
        assert(fdepth(s, t2) == fdepth(s2, t2p));
    }
}

/// In a queue where every tree other than `u` weighs at least half of `u`,
/// a tree no heavier than `u` ends at most one level deeper than `u`.
proof fn lemma_depth_gap(s: Seq<Node>, t: int, u: int)
    requires
        0 <= t < s.len(),
        0 <= u < s.len(),
        t != u,
        sum_weights(s) <= usize::MAX,
        weight_of(s[t]) <= weight_of(s[u]),
        forall|k: int|
            0 <= k < s.len() && k != u ==> 2 * weight_of(#[trigger] s[k]) >= weight_of(s[u]),
    ensures
        fdepth(s, t) <= 1 + fdepth(s, u),
    decreases s.len(),
{
    lemma_step(s);
    lemma_first_min_exists(s);
    let i = min_index(s);
    let rest = s.remove(i);
    lemma_first_min_exists(rest);
    let jo = second_orig(s);
    let s2 = next_queue(s);
    let m = combine(s[i], s[jo]);
    let last = s.len() - 2;
    assert(s2[last] == m);
    if (t == i || t == jo) && (u == i || u == jo) {
        assert(fdepth(s, t) == 1 + fdepth(s2, last));
        assert(fdepth(s, u) == 1 + fdepth(s2, last));
    } else if t == i || t == jo {
        let up = next_pos(s, u);
        assert(s2[up] == s[u]);
        assert(2 * weight_of(s[i]) >= weight_of(s[u]));
        assert(2 * weight_of(s[jo]) >= weight_of(s[u]));
        assert(weight_of(m) >= weight_of(s[u]));
        lemma_dominant_deeper(s2, up, last);
        assert(fdepth(s, t) == 1 + fdepth(s2, last));
        assert(fdepth(s, u) == fdepth(s2, up));
    } else if u == i || u == jo {
        let tp = next_pos(s, t);
        assert(s2[tp] == s[t]);
        assert(weight_of(s[t]) >= weight_of(s[jo]));
        assert(weight_of(s[jo]) >= weight_of(s[i]));
        assert(weight_of(s[u]) <= weight_of(s[t]));
        assert(weight_of(s[t]) == weight_of(s[u]));
        assert(weight_of(s2[tp]) <= weight_of(s2[last]));
        assert forall|k: int|
            0 <= k < s2.len() && k != last implies 2 * weight_of(#[trigger] s2[k]) >= weight_of(
            s2[last],
        ) by {
            assert(weight_of(s2[k]) >= weight_of(s[jo]));
        }
        lemma_depth_gap(s2, tp, last);
        assert(fdepth(s, t) == fdepth(s2, tp));
        assert(fdepth(s, u) == 1 + fdepth(s2, last));
    } else {
        let tp = next_pos(s, t);
        let up = next_pos(s, u);
        assert(s2[tp] == s[t]);
        assert(s2[up] == s[u]);
        assert forall|k: int|
            0 <= k < s2.len() && k != up implies 2 * weight_of(#[trigger] s2[k]) >= weight_of(
            s2[up],
        ) by {
            if k == last {
                assert(2 * weight_of(s[i]) >= weight_of(s[u]));
            } else {
                assert(weight_of(s2[k]) >= weight_of(s[jo]));
                assert(2 * weight_of(s[jo]) >= weight_of(s[u]));
            }
        }
        lemma_depth_gap(s2, tp, up);
        assert(fdepth(s, t) == fdepth(s2, tp));
        assert(fdepth(s, u) == fdepth(s2, up));
    }
}

/// Depth of the leaf carrying `c` — meaningful when exactly one leaf of `n`
/// carries it.
pub open spec fn symbol_depth(n: Node, c: char) -> int
    decreases n,
{
    match n {
        Node::Leaf { .. } => 0,
        Node::Internal { left, right, .. } => {
            if leaves_of(*left).contains(c) {
                1 + symbol_depth(*left, c)
            } else {
                1 + symbol_depth(*right, c)
            }
        },
    }
}

proof fn lemma_concat_contains(a: Seq<char>, b: Seq<char>, c: char)
    ensures
        (a + b).contains(c) <==> a.contains(c) || b.contains(c),
{
    if (a + b).contains(c) {
        let k = choose|k: int| 0 <= k < (a + b).len() && (a + b)[k] == c;
        if k < a.len() {
            assert(a[k] == c);
        } else {
            assert(b[k - a.len()] == c);
        }
    }
    if a.contains(c) {
        let k = choose|k: int| 0 <= k < a.len() && a[k] == c;
        assert((a + b)[k] == c);
    }
    if b.contains(c) {
        let k = choose|k: int| 0 <= k < b.len() && b[k] == c;
        assert((a + b)[k + a.len()] == c);
    }
}

/// Carrying a symbol through the whole merge: if exactly one tree of the
/// queue holds the leaf for `c`, the finished tree holds it at that tree's
/// final depth plus its depth inside the tree.
pub proof fn lemma_merge_loop_symbol_depth(s: Seq<Node>, t: int, c: char)
    requires
        s.len() >= 1,
        0 <= t < s.len(),
        sum_weights(s) <= usize::MAX,
        leaves_of(s[t]).contains(c),
        forall|k: int| 0 <= k < s.len() && k != t ==> !leaves_of(#[trigger] s[k]).contains(c),
    ensures
        leaves_of(merge_loop(s)).contains(c),
        symbol_depth(merge_loop(s), c) == fdepth(s, t) + symbol_depth(s[t], c),
    decreases s.len(),
{
    if s.len() == 1 {
        assert(merge_loop(s) == s[0]);
        assert(fdepth(s, t) == 0);
    } else {
        lemma_step(s);
        let i = min_index(s);
        let jo = second_orig(s);
        let s2 = next_queue(s);
        let m = combine(s[i], s[jo]);
        let last = s.len() - 2;
        assert(s2[last] == m);
        assert(leaves_of(m) == leaves_of(s[i]) + leaves_of(s[jo]));
        lemma_concat_contains(leaves_of(s[i]), leaves_of(s[jo]), c);
        if t == i || t == jo {
            assert(leaves_of(m).contains(c));
            if t == i {
                assert(symbol_depth(m, c) == 1 + symbol_depth(s[i], c));
            } else {
                assert(!leaves_of(s[i]).contains(c));
                assert(symbol_depth(m, c) == 1 + symbol_depth(s[jo], c));
            }
            assert forall|k: int|
                0 <= k < s2.len() && k != last implies !leaves_of(#[trigger] s2[k]).contains(
                c,
            ) by {
                assert(s2[k] == s[orig_pos(s, k)]);
            }
            lemma_merge_loop_symbol_depth(s2, last, c);
            assert(fdepth(s, t) == 1 + fdepth(s2, last));
        } else {
            let tp = next_pos(s, t);
            assert(s2[tp] == s[t]);
            assert(!leaves_of(m).contains(c));
            assert forall|k: int|
                0 <= k < s2.len() && k != tp implies !leaves_of(#[trigger] s2[k]).contains(
                c,
            ) by {
                if k != last {
                    assert(s2[k] == s[orig_pos(s, k)]);
                    assert(next_pos(s, orig_pos(s, k)) == k);
                }
            }
            lemma_merge_loop_symbol_depth(s2, tp, c);
            assert(fdepth(s, t) == fdepth(s2, tp));
        }
    }
}

/// A queue of two or more trees merges into an internal node.
pub proof fn lemma_merge_loop_internal(s: Seq<Node>)
    requires
        s.len() >= 2,
        sum_weights(s) <= usize::MAX,
    ensures
        merge_loop(s) is Internal,
    decreases s.len(),
{
    lemma_step(s);
    let s2 = next_queue(s);
    if s.len() == 2 {
        assert(merge_loop(s2) == s2[0]);
        assert(s2[0] == combine(s[min_index(s)], s[second_orig(s)]));
    } else {
        lemma_merge_loop_internal(s2);
    }
}

/// With pairwise distinct keys, the leaf multiset of the starting queue
/// holds each key exactly once.
pub proof fn lemma_leaf_nodes_count(entries: Seq<(char, usize)>, c: char)
    requires
        forall|i: int, j: int| 0 <= i < j < entries.len() ==> entries[i].0 != entries[j].0,
    ensures
        forest_leaves(leaf_nodes(entries)).count(c) <= 1,
    decreases entries.len(),
{
    broadcast use vstd::seq_lib::group_to_multiset_ensures;

    if entries.len() > 0 {
        let rest = entries.drop_last();
        assert(forall|i: int, j: int| 0 <= i < j < rest.len() ==> rest[i].0 != rest[j].0) by {
            assert(forall|i: int| 0 <= i < rest.len() ==> rest[i] == entries[i]);
        }
        lemma_leaf_nodes_count(rest, c);
        lemma_forest_leaves_push(leaf_nodes(rest), leaf_for(entries.last()));
        assert(leaves_of(leaf_for(entries.last())) == seq![entries.last().0]);
        if entries.last().0 == c {
            lemma_leaf_nodes_symbols(rest, c);
            if exists|k: int| 0 <= k < rest.len() && rest[k].0 == c {
                let k = choose|k: int| 0 <= k < rest.len() && rest[k].0 == c;
                assert(entries[k].0 == c);
                assert(entries[entries.len() - 1].0 == c);
                assert(false);
            }
            assert(forest_leaves(leaf_nodes(rest)).count(c) == 0);
            assert(seq![c].to_multiset().count(c) <= 1) by {
                assert(seq![c].to_multiset().len() == 1);
                vstd::multiset::axiom_count_le_len(seq![c].to_multiset(), c);
            }
        } else {
            assert(seq![entries.last().0].to_multiset().count(c) == 0) by {
                if seq![entries.last().0].to_multiset().count(c) > 0 {
                    assert(seq![entries.last().0].contains(c));
                    let w = choose|w: int|
                        0 <= w < 1 && seq![entries.last().0][w] == c;
                    assert(w == 0);
                }
            }
        }
    }
}

} // verus!

