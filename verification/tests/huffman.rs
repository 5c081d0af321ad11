use huffman::codes::CodeTable;
use huffman::freq::FreqTable;
use huffman::freq::HuffmanError;
use huffman::freq::get_counts;
use huffman::freq::get_probabilities;
use huffman::huffman_encode;

fn chars_of(text: &str) -> Vec<char> {
    text.chars().collect()
}

fn code_of(table: &CodeTable, c: char) -> Vec<bool> {
    for (sym, code) in &table.entries {
        if *sym == c {
            return code.clone();
        }
    }
    panic!("Expected value");
}

fn count_of(table: &FreqTable, c: char) -> usize {
    for (sym, n) in &table.entries {
        if *sym == c {
            return *n;
        }
    }
    panic!("no count recorded");
}

#[derive(Clone)]
struct CountTest {
    text: String,
    results: Vec<(char, usize)>,
}

fn test_counts(test: CountTest) {
    let (counts, total) = get_counts(&chars_of(&test.text));
    let mut count_total: usize = 0;
    assert_eq!(counts.entries.len(), test.results.len());
    for (character, count) in test.results {
        assert_eq!(count, count_of(&counts, character));
        count_total += count;
    }
    assert_eq!(count_total, total);
}

fn test_prob_dist(counts: FreqTable, total: usize, test: CountTest) {
    let prob_dist = match get_probabilities(&counts, total) {
        Ok(p) => p,
        Err(_) => panic!("Failed to calculate correct probability"),
    };
    assert_eq!(prob_dist.denom, total);
    let mut tot_prob: usize = 0;
    for (c, count) in test.results {
        let mut found = false;
        for (sym, numerator) in &prob_dist.entries {
            if *sym == c {
                assert_eq!(*numerator, count);
                found = true;
            }
        }
        assert!(found, "Failed to calculate correct probability");
        tot_prob += count;
    }
    assert_eq!(tot_prob, total);
}

#[test]
fn run_counter_tests() {
    let tests = vec![
        CountTest {
            text: "a".to_string(),
            results: vec![('a', 1)],
        },
        CountTest {
            text: "aaaabbbcccaaaa".to_string(),
            results: vec![('a', 8), ('b', 3), ('c', 3)],
        },
        CountTest {
            text: "a\nb W cd".to_string(),
            results: vec![
                ('a', 1),
                ('b', 1),
                ('c', 1),
                ('\n', 1),
                (' ', 2),
                ('W', 1),
                ('d', 1),
            ],
        },
    ];

    for test in tests {
        test_counts(test.clone());
        let (counts, total) = get_counts(&chars_of(&test.text));
        test_prob_dist(counts, total, test);
    }
}

struct EncodeTest {
    word: String,
    lengths: Vec<(char, u32)>,
}

#[test]
fn test_huffman_encoding() {
    let tests = vec![
        EncodeTest {
            word: "       aaaaeeeefffhhiimmnnssttloprux".to_string(),
            lengths: vec![
                (' ', 3),
                ('a', 3),
                ('e', 3),
                ('f', 4),
                ('h', 4),
                ('i', 4),
                ('m', 4),
                ('n', 4),
                ('s', 4),
                ('t', 4),
                ('l', 5),
                ('o', 5),
                ('p', 5),
                ('r', 5),
                ('u', 5),
                ('x', 5),
            ],
        },
        EncodeTest {
            word: "aaaaaaaaaaaaaaaaaaaaaaaaaaaaaaaaaaaaaaaaaaaaabbbbbbbbbbbbbccccccccccccddddddddddddddddeeeeeeeeefffff".to_string(),
            lengths: vec![('a', 1), ('b', 3), ('c', 3), ('d', 3), ('e', 4), ('f', 4)],
        },
    ];

    for test in tests {
        let code_map = match huffman_encode(&chars_of(&test.word)) {
            Ok(table) => table,
            Err(_) => panic!("Expected value"),
        };
        for (c, len) in test.lengths {
            let char_len = code_of(&code_map, c).len() as u32;
            assert_eq!(char_len, len);
        }
    }
}

#[test]
fn counts_of_empty_input() {
    let (counts, total) = get_counts(&chars_of(""));
    assert_eq!(counts.entries.len(), 0);
    assert_eq!(total, 0);
}

#[test]
fn normalizing_zero_total_is_rejected() {
    let (counts, total) = get_counts(&chars_of(""));
    let r = get_probabilities(&counts, total);
    assert!(matches!(r, Err(HuffmanError::DivisionByZero)));
}

#[test]
fn encoding_empty_input_is_rejected() {
    let r = huffman_encode(&chars_of(""));
    assert!(matches!(r, Err(HuffmanError::EmptyAlphabet)));
}

#[test]
fn degenerate_single_symbol() {
    let (counts, total) = get_counts(&chars_of("aaaa"));
    assert_eq!(counts.entries, vec![('a', 4)]);
    assert_eq!(total, 4);
    let table = huffman_encode(&chars_of("aaaa")).unwrap();
    assert_eq!(table.entries.len(), 1);
    assert_eq!(table.entries[0].0, 'a');
    assert_eq!(table.entries[0].1, vec![false]);
}

#[test]
fn known_two_symbol_case() {
    let (counts, total) = get_counts(&chars_of("aab"));
    assert_eq!(counts.entries, vec![('a', 2), ('b', 1)]);
    assert_eq!(total, 3);
    let probs = get_probabilities(&counts, total).unwrap();
    assert_eq!(probs.entries, vec![('a', 2), ('b', 1)]);
    assert_eq!(probs.denom, 3);
    let table = huffman_encode(&chars_of("aab")).unwrap();
    assert_eq!(table.entries.len(), 2);
    let code_a = code_of(&table, 'a');
    let code_b = code_of(&table, 'b');
    assert_eq!(code_a.len(), 1);
    assert_eq!(code_b.len(), 1);
    assert_ne!(code_a, code_b);
}

fn is_prefix(a: &[bool], b: &[bool]) -> bool {
    a.len() <= b.len() && a.iter().zip(b.iter()).all(|(x, y)| x == y)
}

#[test]
fn codes_are_prefix_free() {
    let table = huffman_encode(&chars_of("       aaaaeeeefffhhiimmnnssttloprux")).unwrap();
    for (i, (_, code_i)) in table.entries.iter().enumerate() {
        for (j, (_, code_j)) in table.entries.iter().enumerate() {
            if i != j {
                assert!(!is_prefix(code_i, code_j));
            }
        }
    }
}

#[test]
fn code_table_covers_frequency_table() {
    let text = chars_of("mississippi river");
    let (counts, _) = get_counts(&text);
    let table = huffman_encode(&text).unwrap();
    assert_eq!(counts.entries.len(), table.entries.len());
    for (sym, _) in &counts.entries {
        assert!(table.entries.iter().any(|(c, _)| c == sym));
    }
    for (sym, _) in &table.entries {
        assert!(counts.entries.iter().any(|(c, _)| c == sym));
    }
}

#[test]
fn kraft_sum_is_exactly_one() {
    let table = huffman_encode(&chars_of("       aaaaeeeefffhhiimmnnssttloprux")).unwrap();
    let max_len = table.entries.iter().map(|(_, code)| code.len()).max().unwrap();
    let scaled_sum: u64 = table
        .entries
        .iter()
        .map(|(_, code)| 1u64 << (max_len - code.len()))
        .sum();
    assert_eq!(scaled_sum, 1u64 << max_len);
}

#[test]
fn identical_inputs_give_identical_tables() {
    let first = huffman_encode(&chars_of("abracadabra")).unwrap();
    let second = huffman_encode(&chars_of("abracadabra")).unwrap();
    assert_eq!(first.entries, second.entries);
}

#[test]
fn skewed_distribution() {
    // One symbol at ~45% of a 101-symbol text takes a single bit; the
    // rarest symbols take the longest codes.
    let word = "aaaaaaaaaaaaaaaaaaaaaaaaaaaaaaaaaaaaaaaaaaaaabbbbbbbbbbbbbccccccccccccddddddddddddddddeeeeeeeeefffff";
    let text = chars_of(word);
    let (counts, _) = get_counts(&text);
    let table = huffman_encode(&text).unwrap();
    assert_eq!(code_of(&table, 'a').len(), 1);
    for (sym_x, count_x) in &counts.entries {
        for (sym_y, count_y) in &counts.entries {
            if count_x > count_y {
                assert!(code_of(&table, *sym_x).len() <= code_of(&table, *sym_y).len());
            }
        }
    }
}

#[test]
fn frequency_lookup() {
    let (counts, _) = get_counts(&chars_of("aaaabbbcccaaaa"));
    assert_eq!(counts.lookup('a'), Some(8));
    assert_eq!(counts.lookup('b'), Some(3));
    assert_eq!(counts.lookup('z'), None);
}

#[test]
fn code_table_find() {
    let table = huffman_encode(&chars_of("aab")).unwrap();
    let i = table.find('a').unwrap();
    assert_eq!(table.entries[i].0, 'a');
    assert!(table.find('z').is_none());
}
