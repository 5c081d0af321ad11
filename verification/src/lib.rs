//! Minimum-redundancy (Huffman) prefix codes.
//!
//! Given an input text, the library counts symbol frequencies, builds the
//! greedy bottom-up merge tree through a priority queue discipline, and
//! assigns each symbol a non-empty bit-string code such that no code is a
//! prefix of another.

use vstd::prelude::*;

pub mod codes;
pub mod freq;
pub mod tree;

use crate::codes::CodeTable;
use crate::codes::assign;
use crate::codes::assigned_codes;
use crate::codes::code_model;
use crate::freq::HuffmanError;
use crate::freq::counts_of;
use crate::freq::get_counts;
use crate::freq::get_probabilities;
use crate::freq::lemma_frequency_correctness;
use crate::freq::sum_counts;
use crate::freq::table_model;
use crate::tree::build;
use crate::tree::leaf_nodes;
use crate::tree::merge_loop;
use crate::tree::sum_weights;

verus! {

/// The counts as they are stored: numerators narrowed back to `usize`.
pub open spec fn counts_entries(m: Seq<(char, int)>) -> Seq<(char, usize)> {
    m.map_values(|p: (char, int)| (p.0, p.1 as usize))
}

/// The code table the whole pipeline produces for `text`: count, normalize,
/// merge greedily, then read the codes off the tree.
pub open spec fn huffman_model(text: Seq<char>) -> Seq<(char, Seq<bool>)> {
    assigned_codes(merge_loop(leaf_nodes(counts_entries(counts_of(text)))))
}

/// Total weight of the leaves equals the total of the counts they carry.
proof fn lemma_sum_leaf_nodes(entries: Seq<(char, usize)>)
    ensures
        sum_weights(leaf_nodes(entries)) == sum_counts(table_model(entries)),
    decreases entries.len(),
{
    if entries.len() > 0 {
        lemma_sum_leaf_nodes(entries.drop_last());
        assert(table_model(entries).drop_last() =~= table_model(entries.drop_last()));
        assert(leaf_nodes(entries).drop_last() =~= leaf_nodes(entries.drop_last()));
    }
}

/// Count the symbols of `text`, normalize, build the merge tree and assign
/// the codes. An empty text has no alphabet to encode and is rejected.
pub fn huffman_encode(text: &Vec<char>) -> (r: Result<CodeTable, HuffmanError>)
    ensures
        text@.len() == 0 ==> r == Err::<CodeTable, HuffmanError>(HuffmanError::EmptyAlphabet),
        text@.len() > 0 ==> (r matches Ok(ct) && code_model(ct.entries@) == huffman_model(text@)),
{
    let (counts, total) = get_counts(text);
    if total == 0 {
        return Err(HuffmanError::EmptyAlphabet);
    }
    proof {
        lemma_frequency_correctness(text@);
        assert(counts.entries@ =~= counts_entries(counts_of(text@)));
        lemma_sum_leaf_nodes(counts.entries@);
        if counts.entries@.len() == 0 {
            assert(sum_counts(counts_of(text@)) == 0);
        }
    }
    let probs = match get_probabilities(&counts, total) {
        Ok(p) => p,
        Err(e) => { return Err(e) },
    };
    let root = match build(&probs) {
        Ok(n) => n,
        Err(e) => { return Err(e) },
    };
    Ok(assign(&root))
}

/// Coverage: a symbol has a code in the table produced for `text` exactly
/// when it occurs in `text` — the code table's key set equals the frequency
/// table's key set, which is the set of symbols of the input.
pub proof fn lemma_coverage(text: Seq<char>, c: char)
    requires
        text.len() > 0,
    ensures
        crate::codes::has_code(huffman_model(text), c) <==> text.contains(c),
{
    broadcast use vstd::seq_lib::group_to_multiset_ensures;

    let entries = counts_entries(counts_of(text));
    let queue = leaf_nodes(entries);
    let root = merge_loop(queue);
    lemma_frequency_correctness(text);
    if entries.len() == 0 {
        assert(sum_counts(counts_of(text)) == 0);
    }
    crate::tree::lemma_leaf_nodes(entries);
    crate::tree::lemma_merge_loop_leaves(queue);
    crate::tree::lemma_leaf_nodes_symbols(entries, c);
    crate::codes::lemma_assigned_codes_keys(root);
    let codes = huffman_model(text);
    let lvs = crate::tree::leaves_of(root);
    if crate::codes::has_code(codes, c) {
        let k = choose|k: int| 0 <= k < codes.len() && codes[k].0 == c;
        assert(lvs[k] == c);
        assert(lvs.contains(c));
        assert(lvs.to_multiset().count(c) > 0);
        let i = choose|i: int| 0 <= i < entries.len() && entries[i].0 == c;
        assert(counts_of(text)[i].0 == c);
        assert(crate::freq::has_key(counts_of(text), c));
    }
    if text.contains(c) {
        assert(crate::freq::has_key(counts_of(text), c));
        let i = choose|i: int| 0 <= i < counts_of(text).len() && counts_of(text)[i].0 == c;
        assert(entries[i].0 == c);
        assert(lvs.to_multiset().count(c) > 0);
        assert(lvs.contains(c));
        let k = choose|k: int| 0 <= k < lvs.len() && lvs[k] == c;
        assert(codes[k].0 == c);
        assert(crate::codes::has_code(codes, c));
    }
}

/// Monotonicity (the optimality mark of the greedy merge): a strictly more
/// frequent symbol never receives a longer code. `ka` and `kb` are the
/// positions of the two symbols' entries in the produced table.
pub proof fn lemma_monotonicity(text: Seq<char>, a: char, b: char, ka: int, kb: int)
    requires
        text.len() <= usize::MAX,
        text.contains(a),
        text.contains(b),
        crate::freq::occurrences(text, a) > crate::freq::occurrences(text, b),
        0 <= ka < huffman_model(text).len(),
        huffman_model(text)[ka].0 == a,
        0 <= kb < huffman_model(text).len(),
        huffman_model(text)[kb].0 == b,
    ensures
        huffman_model(text)[ka].1.len() <= huffman_model(text)[kb].1.len(),
{
    broadcast use vstd::seq_lib::group_to_multiset_ensures;
    broadcast use vstd::multiset::group_multiset_axioms;

    lemma_frequency_correctness(text);
    let m = counts_of(text);
    let entries = counts_entries(m);
    assert(a != b);
    assert forall|k: int|
        0 <= k < entries.len() implies #[trigger] entries[k].0 == m[k].0 && entries[k].1 as int
            == m[k].1 by {
        crate::freq::lemma_occurrences_bound(text, m[k].0);
    }
    let q = leaf_nodes(entries);
    crate::tree::lemma_leaf_nodes(entries);
    assert(crate::freq::has_key(m, a));
    assert(crate::freq::has_key(m, b));
    let ta = choose|t: int| 0 <= t < m.len() && m[t].0 == a;
    let tb = choose|t: int| 0 <= t < m.len() && m[t].0 == b;
    assert(ta != tb);
    assert(entries.len() >= 2);
    lemma_sum_leaf_nodes(entries);
    assert(table_model(entries) =~= m);
    assert(sum_weights(q) == text.len());
    assert(crate::tree::weight_of(q[ta]) as int == m[ta].1);
    assert(crate::tree::weight_of(q[tb]) as int == m[tb].1);
    assert(m[ta].1 == crate::freq::occurrences(text, a));
    assert(m[tb].1 == crate::freq::occurrences(text, b));
    crate::tree::lemma_dominant_deeper(q, tb, ta);
    assert forall|k: int|
        0 <= k < q.len() implies crate::tree::leaves_of(#[trigger] q[k]) == seq![
            entries[k].0,
        ] by {
    }
    assert forall|k: int|
        0 <= k < q.len() && k != ta implies !crate::tree::leaves_of(#[trigger] q[k]).contains(
        a,
    ) by {
        if crate::tree::leaves_of(q[k]).contains(a) {
            let w = choose|w: int| 0 <= w < 1 && seq![entries[k].0][w] == a;
            assert(w == 0);
            assert(m[k].0 == a);
        }
    }
    assert forall|k: int|
        0 <= k < q.len() && k != tb implies !crate::tree::leaves_of(#[trigger] q[k]).contains(
        b,
    ) by {
        if crate::tree::leaves_of(q[k]).contains(b) {
            let w = choose|w: int| 0 <= w < 1 && seq![entries[k].0][w] == b;
            assert(w == 0);
            assert(m[k].0 == b);
        }
    }
    assert(crate::tree::leaves_of(q[ta]).contains(a)) by {
        assert(seq![a][0] == a);
    }
    assert(crate::tree::leaves_of(q[tb]).contains(b)) by {
        assert(seq![b][0] == b);
    }
    crate::tree::lemma_merge_loop_symbol_depth(q, ta, a);
    crate::tree::lemma_merge_loop_symbol_depth(q, tb, b);
    let root = merge_loop(q);
    assert(crate::tree::symbol_depth(root, a) == crate::tree::fdepth(q, ta));
    assert(crate::tree::symbol_depth(root, b) == crate::tree::fdepth(q, tb));
    crate::tree::lemma_merge_loop_internal(q);
    crate::tree::lemma_merge_loop_leaves(q);
    crate::tree::lemma_leaf_nodes_count(entries, a);
    crate::tree::lemma_leaf_nodes_count(entries, b);
    let lv = crate::tree::leaves_of(root);
    assert(lv.to_multiset().count(a) <= 1);
    assert(lv.to_multiset().count(b) <= 1);
    assert forall|k1: int, k2: int|
        0 <= k1 < lv.len() && 0 <= k2 < lv.len() && lv[k1] == a && lv[k2] == a implies k1
            == k2 by {
        if k1 != k2 {
            let lo = if k1 < k2 {
                k1
            } else {
                k2
            };
            let hi = if k1 < k2 {
                k2
            } else {
                k1
            };
            let s1 = lv.remove(lo);
            assert(s1[hi - 1] == a);
            assert(s1.contains(a));
            assert(s1.to_multiset() == lv.to_multiset().remove(a));
            assert(s1.to_multiset().count(a) > 0);
            assert(lv.to_multiset().count(a) >= 2);
        }
    }
    assert forall|k1: int, k2: int|
        0 <= k1 < lv.len() && 0 <= k2 < lv.len() && lv[k1] == b && lv[k2] == b implies k1
            == k2 by {
        if k1 != k2 {
            let lo = if k1 < k2 {
                k1
            } else {
                k2
            };
            let hi = if k1 < k2 {
                k2
            } else {
                k1
            };
            let s1 = lv.remove(lo);
            assert(s1[hi - 1] == b);
            assert(s1.contains(b));
            assert(s1.to_multiset() == lv.to_multiset().remove(b));
            assert(s1.to_multiset().count(b) > 0);
            assert(lv.to_multiset().count(b) >= 2);
        }
    }
    crate::codes::lemma_codes_symbol_len(root, Seq::empty(), a);
    crate::codes::lemma_codes_symbol_len(root, Seq::empty(), b);
    assert(huffman_model(text) == crate::codes::codes_under(root, Seq::empty()));
    assert(huffman_model(text)[ka].1.len() == crate::tree::symbol_depth(root, a));
    assert(huffman_model(text)[kb].1.len() == crate::tree::symbol_depth(root, b));
}

/// The pipeline is deterministic: with the tie-break fixed, two runs on
/// identical input produce identical code tables.
pub proof fn lemma_determinism(t1: Seq<char>, t2: Seq<char>)
    requires
        t1 == t2,
    ensures
        huffman_model(t1) == huffman_model(t2),
{
}

} // verus!
