//! Frequency counting and exact probability normalization.
//!
//! A frequency table is a list of `(symbol, count)` pairs whose keys are the
//! distinct symbols of the input, in order of first appearance. Probabilities
//! are kept exact as rationals over the common denominator `total`, so the
//! numerator of a symbol's probability is simply its count.

use vstd::prelude::*;

verus! {

/// The ways the pipeline can fail.
#[derive(Clone, Copy, Debug, PartialEq, Eq, Structural)]
pub enum HuffmanError {
    /// The frequency table handed to the tree builder was empty.
    EmptyAlphabet,
    /// Normalization was asked for with a total of zero symbols.
    DivisionByZero,
}

/// Occurrence counts per distinct symbol, keys in first-appearance order.
pub struct FreqTable {
    pub entries: Vec<(char, usize)>,
}

/// Exact probabilities: `entries[i].1 / denom` is the probability of
/// `entries[i].0`. The numerators are the original counts and `denom` is the
/// total symbol count, so no precision is lost.
pub struct ProbTable {
    pub entries: Vec<(char, usize)>,
    pub denom: usize,
}

/// The mathematical model of a table: counts widened to `int`.
pub open spec fn table_model(entries: Seq<(char, usize)>) -> Seq<(char, int)> {
    entries.map_values(|p: (char, usize)| (p.0, p.1 as int))
}

/// Number of occurrences of `c` in `s`.
pub open spec fn occurrences(s: Seq<char>, c: char) -> int
    decreases s.len(),
{
    if s.len() == 0 {
        0
    } else {
        occurrences(s.drop_last(), c) + if s.last() == c {
            1int
        } else {
            0int
        }
    }
}

/// A symbol occurs at most as often as the text is long.
pub proof fn lemma_occurrences_bound(s: Seq<char>, c: char)
    ensures
        0 <= occurrences(s, c) <= s.len(),
    decreases s.len(),
{
    if s.len() > 0 {
        lemma_occurrences_bound(s.drop_last(), c);
    }
}

/// `m` holds key `c` somewhere.
pub open spec fn has_key(m: Seq<(char, int)>, c: char) -> bool {
    exists|i: int| 0 <= i < m.len() && m[i].0 == c
}

/// `j` is the first position of key `c` in `m`.
pub open spec fn key_at(m: Seq<(char, int)>, c: char, j: int) -> bool {
    &&& 0 <= j < m.len()
    &&& m[j].0 == c
    &&& forall|k: int| 0 <= k < j ==> m[k].0 != c
}

pub open spec fn key_index(m: Seq<(char, int)>, c: char) -> int {
    choose|j: int| key_at(m, c, j)
}

/// The counts after one more symbol `c`: the first entry for `c` is
/// incremented, or a fresh `(c, 1)` entry is appended.
pub open spec fn bump(m: Seq<(char, int)>, c: char) -> Seq<(char, int)> {
    if has_key(m, c) {
        let j = key_index(m, c);
        m.update(j, (c, m[j].1 + 1))
    } else {
        m.push((c, 1))
    }
}

/// The frequency table of `s`, built left to right.
pub open spec fn counts_of(s: Seq<char>) -> Seq<(char, int)>
    decreases s.len(),
{
    if s.len() == 0 {
        Seq::empty()
    } else {
        bump(counts_of(s.drop_last()), s.last())
    }
}

/// Sum of the counts of `m`.
pub open spec fn sum_counts(m: Seq<(char, int)>) -> int
    decreases m.len(),
{
    if m.len() == 0 {
        0
    } else {
        sum_counts(m.drop_last()) + m.last().1
    }
}

/// Keys are pairwise distinct.
pub open spec fn distinct_keys(m: Seq<(char, int)>) -> bool {
    forall|i: int, j: int| 0 <= i < j < m.len() ==> m[i].0 != m[j].0
}

proof fn lemma_first_key_exists(m: Seq<(char, int)>, c: char)
    requires
        has_key(m, c),
    ensures
        key_at(m, c, key_index(m, c)),
    decreases m.len(),
{
    if m[0].0 == c {
        assert(key_at(m, c, 0));
    } else {
        let i = choose|i: int| 0 <= i < m.len() && m[i].0 == c;
        assert(m.drop_first()[i - 1].0 == c);
        lemma_first_key_exists(m.drop_first(), c);
        let j = key_index(m.drop_first(), c);
        assert(forall|k: int| 0 <= k < j + 1 ==> #[trigger] m[k].0 != c) by {
            assert(forall|k: int| 1 <= k < j + 1 ==> m[k] == m.drop_first()[k - 1]);
        }
        assert(key_at(m, c, j + 1));
    }
    let w = choose|j: int| key_at(m, c, j);
    assert(key_at(m, c, w));
}

proof fn lemma_key_at_unique(m: Seq<(char, int)>, c: char, j: int)
    requires
        key_at(m, c, j),
    ensures
        key_index(m, c) == j,
        has_key(m, c),
{
    assert(has_key(m, c));
    lemma_first_key_exists(m, c);
    let w = key_index(m, c);
    if w < j {
        assert(m[w].0 != c);
    } else if j < w {
        assert(m[j].0 != c);
    }
}

proof fn lemma_sum_update(m: Seq<(char, int)>, j: int, v: (char, int))
    requires
        0 <= j < m.len(),
    ensures
        sum_counts(m.update(j, v)) == sum_counts(m) - m[j].1 + v.1,
    decreases m.len(),
{
    if j == m.len() - 1 {
        assert(m.update(j, v).drop_last() =~= m.drop_last());
    } else {
        assert(m.update(j, v).drop_last() =~= m.drop_last().update(j, v));
        lemma_sum_update(m.drop_last(), j, v);
    }
}

proof fn lemma_sum_push(m: Seq<(char, int)>, v: (char, int))
    ensures
        sum_counts(m.push(v)) == sum_counts(m) + v.1,
{
    assert(m.push(v).drop_last() =~= m);
}

/// The count stored for one key is at most the sum of all counts, provided
/// no count is negative.
proof fn lemma_count_le_sum(m: Seq<(char, int)>, j: int)
    requires
        0 <= j < m.len(),
        forall|k: int| 0 <= k < m.len() ==> #[trigger] m[k].1 >= 0,
    ensures
        m[j].1 <= sum_counts(m),
    decreases m.len(),
{
    if j == m.len() - 1 {
        lemma_sum_nonneg(m.drop_last());
    } else {
        lemma_count_le_sum(m.drop_last(), j);
    }
}

proof fn lemma_sum_nonneg(m: Seq<(char, int)>)
    requires
        forall|k: int| 0 <= k < m.len() ==> #[trigger] m[k].1 >= 0,
    ensures
        sum_counts(m) >= 0,
    decreases m.len(),
{
    if m.len() > 0 {
        lemma_sum_nonneg(m.drop_last());
    }
}

/// Everything stated of a frequency table at once, for induction over the
/// input text.
proof fn lemma_counts_of(s: Seq<char>)
    ensures
        sum_counts(counts_of(s)) == s.len(),
        distinct_keys(counts_of(s)),
        forall|c: char| has_key(counts_of(s), c) <==> s.contains(c),
        forall|i: int|
            0 <= i < counts_of(s).len() ==> #[trigger] counts_of(s)[i].1 == occurrences(
                s,
                counts_of(s)[i].0,
            ),
        forall|i: int| 0 <= i < counts_of(s).len() ==> #[trigger] counts_of(s)[i].1 >= 1,
    decreases s.len(),
{
    if s.len() > 0 {
        let t = s.drop_last();
        let c = s.last();
        let m = counts_of(t);
        lemma_counts_of(t);
        assert(forall|d: char| t.contains(d) ==> s.contains(d)) by {
            assert(forall|i: int| 0 <= i < t.len() ==> s[i] == t[i]);
        }
        assert(s.contains(c)) by {
            assert(s[s.len() - 1] == c);
        }
        assert(forall|d: char| s.contains(d) && d != c ==> t.contains(d)) by {
            assert(forall|i: int| 0 <= i < s.len() && s[i] != c ==> i < t.len() && t[i] == s[i]);
        }
        assert(forall|d: char| occurrences(s, d) == occurrences(t, d) + if d == c {
            1int
        } else {
            0int
        });
        if has_key(m, c) {
            lemma_first_key_exists(m, c);
            let j = key_index(m, c);
            lemma_sum_update(m, j, (c, m[j].1 + 1));
            assert(counts_of(s) =~= m.update(j, (c, m[j].1 + 1)));
            assert(forall|i: int| 0 <= i < m.len() ==> #[trigger] counts_of(s)[i].0 == m[i].0);
            assert forall|d: char| has_key(counts_of(s), d) implies s.contains(d) by {
                let i = choose|i: int| 0 <= i < counts_of(s).len() && counts_of(s)[i].0 == d;
                assert(m[i].0 == d);
            }
            assert forall|d: char| s.contains(d) implies has_key(counts_of(s), d) by {
                let i = choose|i: int| 0 <= i < m.len() && m[i].0 == d;
                assert(counts_of(s)[i].0 == d);
            }
        } else {
            lemma_sum_push(m, (c, 1));
            assert(counts_of(s) =~= m.push((c, 1)));
            assert(!t.contains(c));
            assert(occurrences(t, c) == 0) by {
                lemma_no_occurrence(t, c);
            }
            assert forall|d: char| has_key(counts_of(s), d) implies s.contains(d) by {
                let i = choose|i: int|
                    0 <= i < counts_of(s).len() && counts_of(s)[i].0 == d;
                if i < m.len() {
                    assert(m[i].0 == d);
                } else {
                    assert(d == c);
                }
            }
            assert forall|d: char| s.contains(d) implies has_key(counts_of(s), d) by {
                if d == c {
                    assert(counts_of(s)[m.len() as int].0 == c);
                } else {
                    let i = choose|i: int| 0 <= i < m.len() && m[i].0 == d;
                    assert(counts_of(s)[i].0 == d);
                }
            }
        }
    }
}

proof fn lemma_no_occurrence(s: Seq<char>, c: char)
    requires
        !s.contains(c),
    ensures
        occurrences(s, c) == 0,
    decreases s.len(),
{
    if s.len() > 0 {
        assert(s[s.len() - 1] == s.last());
        assert(!s.drop_last().contains(c)) by {
            assert(forall|i: int| 0 <= i < s.len() - 1 ==> s.drop_last()[i] == s[i]);
        }
        lemma_no_occurrence(s.drop_last(), c);
    }
}

/// The frequencies of every input are correct: the counts sum to the input
/// length, keys are the distinct symbols of the input in first-appearance
/// order, and each key's count is its number of occurrences.
pub proof fn lemma_frequency_correctness(s: Seq<char>)
    ensures
        sum_counts(counts_of(s)) == s.len(),
        distinct_keys(counts_of(s)),
        forall|c: char| has_key(counts_of(s), c) <==> s.contains(c),
        forall|i: int|
            0 <= i < counts_of(s).len() ==> #[trigger] counts_of(s)[i].1 == occurrences(
                s,
                counts_of(s)[i].0,
            ),
        forall|i: int| 0 <= i < counts_of(s).len() ==> #[trigger] counts_of(s)[i].1 >= 1,
{
    lemma_counts_of(s);
}

/// Scan `text` once, incrementing a per-symbol count and the running total.
///
/// Returns the frequency table of the text and the total number of symbols.
pub fn get_counts(text: &Vec<char>) -> (r: (FreqTable, usize))
    ensures
        table_model(r.0.entries@) == counts_of(text@),
        r.1 == text@.len(),
{
    let mut entries: Vec<(char, usize)> = Vec::new();
    let mut total: usize = 0;
    let mut i: usize = 0;
    proof {
        assert(text@.take(0) =~= Seq::<char>::empty());
    }
    while i < text.len()
        invariant
            0 <= i <= text@.len(),
            total == i,
            table_model(entries@) == counts_of(text@.take(i as int)),
        decreases text@.len() - i,
    {
        let c = text[i];
        proof {
            assert(text@.take(i + 1).drop_last() =~= text@.take(i as int));
            assert(text@.take(i + 1).last() == c);
            lemma_counts_of(text@.take(i as int));
        }
        bump_entry(&mut entries, c);
        total = total + 1;
        i = i + 1;
    }
    proof {
        assert(text@.take(text@.len() as int) =~= text@);
    }
    (FreqTable { entries }, total)
}

/// Record one more occurrence of `c` in the table.
fn bump_entry(entries: &mut Vec<(char, usize)>, c: char)
    requires
        sum_counts(table_model(old(entries)@)) < usize::MAX,
    ensures
        table_model(final(entries)@) == bump(table_model(old(entries)@), c),
{
    let ghost m = table_model(entries@);
    let mut j: usize = 0;
    while j < entries.len()
        invariant
            0 <= j <= entries@.len(),
            entries@ == old(entries)@,
            m == table_model(entries@),
            sum_counts(m) < usize::MAX,
            forall|k: int| 0 <= k < j ==> m[k].0 != c,
        decreases entries@.len() - j,
    {
        if entries[j].0 == c {
            proof {
                assert(key_at(m, c, j as int));
                lemma_key_at_unique(m, c, j as int);
                assert(forall|k: int| 0 <= k < m.len() ==> #[trigger] m[k].1 >= 0);
                lemma_count_le_sum(m, j as int);
            }
            let n = entries[j].1;
            entries[j] = (c, n + 1);
            proof {
                assert(table_model(entries@) =~= bump(m, c));
            }
            return ;
        }
        j = j + 1;
    }
    proof {
        if has_key(m, c) {
            let i = choose|i: int| 0 <= i < m.len() && m[i].0 == c;
            assert(m[i].0 != c);
        }
    }
    entries.push((c, 1));
    proof {
        assert(table_model(entries@) =~= bump(m, c));
    }
}

impl FreqTable {
    /// The count recorded for symbol `c`, if the table holds one.
    pub fn lookup(&self, c: char) -> (r: Option<usize>)
        ensures
            r is Some <==> has_key(table_model(self.entries@), c),
            r matches Some(v) ==> key_at(table_model(self.entries@), c, key_index(table_model(self.entries@), c))
                && table_model(self.entries@)[key_index(table_model(self.entries@), c)].1 == v as int,
    {
        let mut j: usize = 0;
        while j < self.entries.len()
            invariant
                0 <= j <= self.entries@.len(),
                forall|k: int| 0 <= k < j ==> table_model(self.entries@)[k].0 != c,
            decreases self.entries@.len() - j,
        {
            if self.entries[j].0 == c {
                proof {
                    assert(key_at(table_model(self.entries@), c, j as int));
                    lemma_key_at_unique(table_model(self.entries@), c, j as int);
                }
                return Some(self.entries[j].1);
            }
            j = j + 1;
        }
        proof {
            if has_key(table_model(self.entries@), c) {
                let i = choose|i: int|
                    0 <= i < table_model(self.entries@).len() && table_model(self.entries@)[i].0
                        == c;
                assert(table_model(self.entries@)[i].0 != c);
            }
        }
        None
    }
}

/// Map each count to the exact probability `count / total`.
///
/// The probabilities share the denominator `total`, so the table keeps the
/// counts as numerators; nothing is rounded. A zero total is rejected
/// instead of dividing by zero.
pub fn get_probabilities(counts: &FreqTable, total: usize) -> (r: Result<ProbTable, HuffmanError>)
    ensures
        total == 0 ==> r == Err::<ProbTable, HuffmanError>(HuffmanError::DivisionByZero),
        total > 0 ==> (r matches Ok(p) && p.entries@ == counts.entries@ && p.denom == total),
{
    if total == 0 {
        return Err(HuffmanError::DivisionByZero);
    }
    let mut entries: Vec<(char, usize)> = Vec::new();
    let mut i: usize = 0;
    while i < counts.entries.len()
        invariant
            0 <= i <= counts.entries@.len(),
            entries@ == counts.entries@.take(i as int),
        decreases counts.entries@.len() - i,
    {
        let pair = counts.entries[i];
        entries.push(pair);
        proof {
            assert(entries@ =~= counts.entries@.take(i + 1));
        }
        i = i + 1;
    }
    proof {
        assert(counts.entries@.take(counts.entries@.len() as int) =~= counts.entries@);
    }
    Ok(ProbTable { entries, denom: total })
}

/// The probabilities of a non-empty input sum to exactly one: the numerators
/// of the table produced for `s` add up to the shared denominator, the length
/// of `s`.
pub proof fn lemma_probability_normalization(s: Seq<char>)
    requires
        s.len() > 0,
    ensures
        sum_counts(counts_of(s)) == s.len(),
{
    lemma_counts_of(s);
}

} // verus!
