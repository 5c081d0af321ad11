//! Code assignment: walking the finished merge tree and recording, for each
//! leaf, the path that reaches it — bit 0 (`false`) for a left branch, bit 1
//! (`true`) for a right branch.
//!
//! A leaf is recognised structurally, by having no children, never by the
//! shape of a label. A tree that is a single leaf gets the fixed one-bit
//! code 0, since every symbol must have a non-empty code.

use vstd::prelude::*;

use crate::tree::Node;

verus! {

/// Symbol-to-code table; a code is a bit string, `false` standing for the
/// bit 0 and `true` for the bit 1.
pub struct CodeTable {
    pub entries: Vec<(char, Vec<bool>)>,
}

/// The mathematical model of a code table: each code as a sequence of bits.
pub open spec fn code_model(entries: Seq<(char, Vec<bool>)>) -> Seq<(char, Seq<bool>)> {
    entries.map_values(|p: (char, Vec<bool>)| (p.0, p.1@))
}

/// The code of one leaf: the path that reached it.
pub open spec fn code_for(symbol: char, path: Seq<bool>) -> (char, Seq<bool>) {
    (symbol, path)
}

/// The codes assigned under `n` when the path so far is `path`, in
/// left-to-right leaf order.
pub open spec fn codes_under(n: Node, path: Seq<bool>) -> Seq<(char, Seq<bool>)>
    decreases n,
{
    match n {
        Node::Leaf { symbol, .. } => seq![code_for(symbol, path)],
        Node::Internal { left, right, .. } => codes_under(*left, path.push(false)) + codes_under(
            *right,
            path.push(true),
        ),
    }
}

/// The code table of a finished tree: paths from the root, except that a
/// lone leaf gets the one-bit code 0.
pub open spec fn assigned_codes(n: Node) -> Seq<(char, Seq<bool>)> {
    match n {
        Node::Leaf { symbol, .. } => seq![code_for(symbol, seq![false])],
        Node::Internal { .. } => codes_under(n, Seq::empty()),
    }
}

/// A fresh copy of `code` with one more bit at the end.
fn push_bit(code: &Vec<bool>, bit: bool) -> (r: Vec<bool>)
    ensures
        r@ == code@.push(bit),
{
    let mut r: Vec<bool> = Vec::new();
    let mut i: usize = 0;
    proof {
        assert(code@.take(0) =~= Seq::<bool>::empty());
    }
    while i < code.len()
        invariant
            0 <= i <= code@.len(),
            r@ == code@.take(i as int),
        decreases code@.len() - i,
    {
        r.push(code[i]);
        proof {
            assert(r@ =~= code@.take(i + 1));
        }
        i = i + 1;
    }
    proof {
        assert(code@.take(code@.len() as int) =~= code@);
    }
    r.push(bit);
    r
}

/// Traverse `curr_node`, appending to `bin_maps` one entry per leaf: the
/// symbol and the path `curr_word` extended by the branches taken.
pub fn parse_codes(curr_node: &Node, bin_maps: CodeTable, curr_word: Vec<bool>) -> (r: CodeTable)
    ensures
        code_model(r.entries@) == code_model(bin_maps.entries@) + codes_under(
            *curr_node,
            curr_word@,
        ),
    decreases *curr_node,
{
    match curr_node {
        Node::Leaf { symbol, .. } => {
            let mut bm = bin_maps;
            let ghost before = bm.entries@;
            bm.entries.push((*symbol, curr_word));
            proof {
                assert(code_model(bm.entries@) =~= code_model(before) + codes_under(
                    *curr_node,
                    curr_word@,
                ));
            }
            bm
        },
        Node::Internal { left, right, .. } => {
            let ghost before = bin_maps.entries@;
            let word_left = push_bit(&curr_word, false);
            let word_right = push_bit(&curr_word, true);
            let bm = parse_codes(&**left, bin_maps, word_left);
            let r = parse_codes(&**right, bm, word_right);
            proof {
                assert(code_model(r.entries@) =~= code_model(before) + codes_under(
                    *curr_node,
                    curr_word@,
                ));
            }
            r
        },
    }
}

/// Assign every symbol of the tree its code. A lone-leaf root is the
/// degenerate single-symbol alphabet and gets the code 0.
pub fn assign(root: &Node) -> (r: CodeTable)
    ensures
        code_model(r.entries@) == assigned_codes(*root),
{
    match root {
        Node::Leaf { symbol, .. } => {
            let mut code: Vec<bool> = Vec::new();
            code.push(false);
            let mut entries: Vec<(char, Vec<bool>)> = Vec::new();
            entries.push((*symbol, code));
            let ct = CodeTable { entries };
            proof {
                assert(code_model(ct.entries@) =~= assigned_codes(*root));
            }
            ct
        },
        Node::Internal { .. } => {
            let empty_table = CodeTable { entries: Vec::new() };
            let ghost before = empty_table.entries@;
            let r = parse_codes(root, empty_table, Vec::new());
            proof {
                assert(code_model(before) =~= Seq::<(char, Seq<bool>)>::empty());
                assert(code_model(r.entries@) =~= assigned_codes(*root));
            }
            r
        },
    }
}

impl CodeTable {
    /// Position of the entry for symbol `c`: the first one, though a table
    /// the pipeline produced holds at most one per symbol.
    pub fn find(&self, c: char) -> (r: Option<usize>)
        ensures
            r matches Some(i) ==> i < self.entries@.len() && self.entries@[i as int].0 == c && (
            forall|k: int| 0 <= k < i ==> self.entries@[k].0 != c),
            r is None ==> forall|k: int|
                0 <= k < self.entries@.len() ==> self.entries@[k].0 != c,
    {
        let mut j: usize = 0;
        while j < self.entries.len()
            invariant
                0 <= j <= self.entries@.len(),
                forall|k: int| 0 <= k < j ==> self.entries@[k].0 != c,
            decreases self.entries@.len() - j,
        {
            if self.entries[j].0 == c {
                return Some(j);
            }
            j = j + 1;
        }
        None
    }
}

/// `codes` holds an entry for symbol `c`.
pub open spec fn has_code(codes: Seq<(char, Seq<bool>)>, c: char) -> bool {
    exists|k: int| 0 <= k < codes.len() && codes[k].0 == c
}

proof fn lemma_prefix_index(a: Seq<bool>, b: Seq<bool>, i: int)
    requires
        a.is_prefix_of(b),
        0 <= i < a.len(),
    ensures
        a[i] == b[i],
{
    assert(a[i] == b.subrange(0, a.len() as int)[i]);
}

proof fn lemma_prefix_transitive(a: Seq<bool>, b: Seq<bool>, c: Seq<bool>)
    requires
        a.is_prefix_of(b),
        b.is_prefix_of(c),
    ensures
        a.is_prefix_of(c),
{
    assert forall|i: int| 0 <= i < a.len() implies a[i] == c[i] by {
        lemma_prefix_index(a, b, i);
        lemma_prefix_index(b, c, i);
    }
    assert(a =~= c.subrange(0, a.len() as int));
}

/// Everything the laws need of a traversal at once, by induction on the
/// tree: one code per leaf, in leaf order, each code extending `path`, and
/// no code a prefix of another.
proof fn lemma_codes_under(n: Node, path: Seq<bool>)
    ensures
        codes_under(n, path).len() == crate::tree::leaves_of(n).len(),
        codes_under(n, path).len() >= 1,
        forall|k: int|
            0 <= k < codes_under(n, path).len() ==> (#[trigger] codes_under(n, path)[k]).0
                == crate::tree::leaves_of(n)[k],
        forall|k: int|
            0 <= k < codes_under(n, path).len() ==> path.is_prefix_of(
                (#[trigger] codes_under(n, path)[k]).1,
            ),
        forall|k1: int, k2: int|
            0 <= k1 < codes_under(n, path).len() && 0 <= k2 < codes_under(n, path).len() && k1
                != k2 ==> !(#[trigger] codes_under(n, path)[k1]).1.is_prefix_of(
                (#[trigger] codes_under(n, path)[k2]).1,
            ),
    decreases n,
{
    match n {
        Node::Leaf { symbol, .. } => {
            assert(codes_under(n, path) == seq![code_for(symbol, path)]);
            assert(path =~= path.subrange(0, path.len() as int));
        },
        Node::Internal { left, right, .. } => {
            let pl = path.push(false);
            let pr = path.push(true);
            let l = codes_under(*left, pl);
            let r = codes_under(*right, pr);
            lemma_codes_under(*left, pl);
            lemma_codes_under(*right, pr);
            assert(codes_under(n, path) == l + r);
            assert(path =~= pl.subrange(0, path.len() as int));
            assert(path =~= pr.subrange(0, path.len() as int));
            assert(path.is_prefix_of(pl));
            assert(path.is_prefix_of(pr));
            assert forall|k: int| 0 <= k < l.len() + r.len() implies path.is_prefix_of(
                (#[trigger] (l + r)[k]).1,
            ) by {
                if k < l.len() {
                    lemma_prefix_transitive(path, pl, l[k].1);
                } else {
                    lemma_prefix_transitive(path, pr, r[k - l.len()].1);
                }
            }
            assert forall|k1: int, k2: int|
                0 <= k1 < l.len() + r.len() && 0 <= k2 < l.len() + r.len() && k1 != k2 implies !(
            #[trigger] (l + r)[k1]).1.is_prefix_of((#[trigger] (l + r)[k2]).1) by {
                let c1 = (l + r)[k1].1;
                let c2 = (l + r)[k2].1;
                if k1 < l.len() && k2 >= l.len() {
                    if c1.is_prefix_of(c2) {
                        lemma_prefix_index(pl, c1, path.len() as int);
                        lemma_prefix_index(pr, c2, path.len() as int);
                        lemma_prefix_index(c1, c2, path.len() as int);
                    }
                } else if k1 >= l.len() && k2 < l.len() {
                    if c1.is_prefix_of(c2) {
                        lemma_prefix_index(pr, c1, path.len() as int);
                        lemma_prefix_index(pl, c2, path.len() as int);
                        lemma_prefix_index(c1, c2, path.len() as int);
                    }
                }
            }
            assert(crate::tree::leaves_of(n) == crate::tree::leaves_of(*left)
                + crate::tree::leaves_of(*right));
        },
    }
}

/// Prefix-freeness: among the codes assigned from any tree, no entry's code
/// is a prefix of another entry's code.
pub proof fn lemma_prefix_free(root: Node)
    ensures
        forall|k1: int, k2: int|
            0 <= k1 < assigned_codes(root).len() && 0 <= k2 < assigned_codes(root).len() && k1
                != k2 ==> !(#[trigger] assigned_codes(root)[k1]).1.is_prefix_of(
                (#[trigger] assigned_codes(root)[k2]).1,
            ),
{
    match root {
        Node::Leaf { symbol, .. } => {
            assert(assigned_codes(root).len() == 1);
        },
        Node::Internal { .. } => {
            lemma_codes_under(root, Seq::empty());
        },
    }
}

/// One code per leaf, in leaf order, and every code non-empty.
pub proof fn lemma_assigned_codes_keys(root: Node)
    ensures
        assigned_codes(root).len() == crate::tree::leaves_of(root).len(),
        forall|k: int|
            0 <= k < assigned_codes(root).len() ==> (#[trigger] assigned_codes(root)[k]).0
                == crate::tree::leaves_of(root)[k],
        forall|k: int|
            0 <= k < assigned_codes(root).len() ==> (#[trigger] assigned_codes(root)[k]).1.len()
                >= 1,
{
    match root {
        Node::Leaf { symbol, .. } => {
            assert(assigned_codes(root) == seq![code_for(symbol, seq![false])]);
            assert(crate::tree::leaves_of(root) == seq![symbol]);
        },
        Node::Internal { left, right, .. } => {
            let l = codes_under(*left, seq![false]);
            let r = codes_under(*right, seq![true]);
            lemma_codes_under(root, Seq::empty());
            lemma_codes_under(*left, seq![false]);
            lemma_codes_under(*right, seq![true]);
            assert(Seq::<bool>::empty().push(false) =~= seq![false]);
            assert(Seq::<bool>::empty().push(true) =~= seq![true]);
            assert(assigned_codes(root) == l + r);
            assert forall|k: int| 0 <= k < assigned_codes(root).len() implies (
            #[trigger] assigned_codes(root)[k]).1.len() >= 1 by {
                if k < l.len() {
                    assert(seq![false].is_prefix_of(l[k].1));
                } else {
                    assert(seq![true].is_prefix_of(r[k - l.len()].1));
                }
            }
        },
    }
}

/// 2 to the power `e`.
pub open spec fn two_pow(e: nat) -> nat
    decreases e,
{
    if e == 0 {
        1
    } else {
        2 * two_pow((e - 1) as nat)
    }
}

/// The Kraft sum of the codes scaled by 2^d: the sum over the entries of
/// 2^(d − len(code)). A code longer than `d` contributes nothing, which
/// keeps the sum total; the laws only apply it with `d` at least the
/// longest code.
pub open spec fn kraft_scaled(codes: Seq<(char, Seq<bool>)>, d: int) -> int
    decreases codes.len(),
{
    if codes.len() == 0 {
        0
    } else {
        kraft_scaled(codes.drop_last(), d) + if codes.last().1.len() <= d {
            two_pow((d - codes.last().1.len()) as nat) as int
        } else {
            0
        }
    }
}

proof fn lemma_kraft_concat(a: Seq<(char, Seq<bool>)>, b: Seq<(char, Seq<bool>)>, d: int)
    ensures
        kraft_scaled(a + b, d) == kraft_scaled(a, d) + kraft_scaled(b, d),
    decreases b.len(),
{
    if b.len() == 0 {
        assert(a + b =~= a);
    } else {
        assert((a + b).drop_last() =~= a + b.drop_last());
        assert((a + b).last() == b.last());
        lemma_kraft_concat(a, b.drop_last(), d);
    }
}

proof fn lemma_kraft_under(n: Node, path: Seq<bool>, d: int)
    requires
        d >= path.len() + crate::tree::height_of(n),
    ensures
        kraft_scaled(codes_under(n, path), d) == two_pow((d - path.len()) as nat),
    decreases n,
{
    match n {
        Node::Leaf { symbol, .. } => {
            reveal_with_fuel(kraft_scaled, 2);
            assert(codes_under(n, path) == seq![code_for(symbol, path)]);
            assert(seq![code_for(symbol, path)].drop_last() =~= Seq::<(char, Seq<bool>)>::empty());
            assert(seq![code_for(symbol, path)].last() == code_for(symbol, path));
        },
        Node::Internal { left, right, .. } => {
            let pl = path.push(false);
            let pr = path.push(true);
            lemma_kraft_under(*left, pl, d);
            lemma_kraft_under(*right, pr, d);
            lemma_kraft_concat(codes_under(*left, pl), codes_under(*right, pr), d);
            assert((d - path.len()) as nat != 0);
            assert(((d - path.len()) as nat - 1) as nat == (d - pl.len()) as nat);
            assert(two_pow((d - path.len()) as nat) == 2 * two_pow((d - pl.len()) as nat));
            assert((d - pr.len()) as nat == (d - pl.len()) as nat);
        },
    }
}

/// Kraft's equality for an alphabet of at least two symbols: with `h` the
/// height of the tree, the assigned code lengths satisfy
/// Σ 2^(h − len(code)) = 2^h — that is, the Kraft sum Σ 2^(−len(code)) is
/// exactly one, the mark of a complete binary code tree.
pub proof fn lemma_kraft_equality(root: Node)
    requires
        root is Internal,
    ensures
        kraft_scaled(assigned_codes(root), crate::tree::height_of(root) as int) == two_pow(
            crate::tree::height_of(root),
        ),
{
    lemma_kraft_under(root, Seq::empty(), crate::tree::height_of(root) as int);
}

/// The code recorded for `c` is as long as the path walked so far plus the
/// depth of its leaf — provided exactly one leaf carries `c`.
pub proof fn lemma_codes_symbol_len(n: Node, path: Seq<bool>, c: char)
    requires
        crate::tree::leaves_of(n).contains(c),
        forall|k1: int, k2: int|
            0 <= k1 < crate::tree::leaves_of(n).len() && 0 <= k2 < crate::tree::leaves_of(n).len()
                && crate::tree::leaves_of(n)[k1] == c && crate::tree::leaves_of(n)[k2] == c ==> k1
                == k2,
    ensures
        forall|k: int|
            0 <= k < codes_under(n, path).len() && (#[trigger] codes_under(n, path)[k]).0 == c
                ==> codes_under(n, path)[k].1.len() == path.len() + crate::tree::symbol_depth(
                n,
                c,
            ),
    decreases n,
{
    match n {
        Node::Leaf { symbol, .. } => {
            assert(codes_under(n, path) == seq![code_for(symbol, path)]);
        },
        Node::Internal { left, right, .. } => {
            let lv_l = crate::tree::leaves_of(*left);
            let lv_r = crate::tree::leaves_of(*right);
            let lv = crate::tree::leaves_of(n);
            assert(lv == lv_l + lv_r);
            let pl = path.push(false);
            let pr = path.push(true);
            let l = codes_under(*left, pl);
            let r = codes_under(*right, pr);
            assert(codes_under(n, path) == l + r);
            lemma_codes_under(*left, pl);
            lemma_codes_under(*right, pr);
            lemma_codes_under(n, path);
            if lv_l.contains(c) && lv_r.contains(c) {
                let k1 = choose|k1: int| 0 <= k1 < lv_l.len() && lv_l[k1] == c;
                let k2 = choose|k2: int| 0 <= k2 < lv_r.len() && lv_r[k2] == c;
                assert(lv[k1] == c);
                assert(lv[lv_l.len() + k2] == c);
                assert(false);
            }
            if lv_l.contains(c) {
                assert(forall|k1: int, k2: int|
                    0 <= k1 < lv_l.len() && 0 <= k2 < lv_l.len() && lv_l[k1] == c && lv_l[k2] == c
                        ==> k1 == k2) by {
                    assert(forall|k: int| 0 <= k < lv_l.len() ==> lv[k] == #[trigger] lv_l[k]);
                }
                lemma_codes_symbol_len(*left, pl, c);
                assert(crate::tree::symbol_depth(n, c) == 1 + crate::tree::symbol_depth(*left, c));
                assert forall|k: int|
                    0 <= k < codes_under(n, path).len() && (#[trigger] codes_under(n, path)[k]).0
                        == c implies codes_under(n, path)[k].1.len() == path.len()
                    + crate::tree::symbol_depth(n, c) by {
                    assert(codes_under(n, path)[k].0 == lv[k]);
                    if k >= l.len() {
                        assert(lv[k] == lv_r[k - lv_l.len()]);
                        assert(lv_r.contains(c));
                        assert(false);
                    }
                    assert((l + r)[k] == l[k]);
                }
            } else {
                assert(lv_r.contains(c)) by {
                    let k = choose|k: int| 0 <= k < lv.len() && lv[k] == c;
                    if k < lv_l.len() {
                        assert(lv_l[k] == c);
                    } else {
                        assert(lv_r[k - lv_l.len()] == c);
                    }
                }
                assert(forall|k1: int, k2: int|
                    0 <= k1 < lv_r.len() && 0 <= k2 < lv_r.len() && lv_r[k1] == c && lv_r[k2] == c
                        ==> k1 == k2) by {
                    assert(forall|k: int|
                        0 <= k < lv_r.len() ==> lv[lv_l.len() + k] == #[trigger] lv_r[k]);
                }
                lemma_codes_symbol_len(*right, pr, c);
                assert(crate::tree::symbol_depth(n, c) == 1 + crate::tree::symbol_depth(*right, c));
                assert forall|k: int|
                    0 <= k < codes_under(n, path).len() && (#[trigger] codes_under(n, path)[k]).0
                        == c implies codes_under(n, path)[k].1.len() == path.len()
                    + crate::tree::symbol_depth(n, c) by {
                    assert(codes_under(n, path)[k].0 == lv[k]);
                    if k < l.len() {
                        assert(lv[k] == lv_l[k]);
                        assert(lv_l.contains(c));
                        assert(false);
                    }
                    assert((l + r)[k] == r[k - l.len()]);
                }
            }
        },
    }
}

} // verus!
