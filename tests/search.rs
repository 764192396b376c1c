use ngram_search::score::{merge_hits, rank};
use ngram_search::{
    count_trigrams, normalize, trigrams_of_chars, with_trigrams, FormatError, Leaf, Match, Ngrams,
    NgramsBuilder, SearchError, Threshold, WriteError,
};

fn build(pairs: &[(&str, u32)]) -> Vec<u8> {
    let mut builder = Ngrams::builder();
    for (s, id) in pairs {
        builder.add(s, *id);
    }
    let mut bytes = Vec::new();
    builder.write(&mut bytes).unwrap();
    bytes
}

fn score(m: &Match) -> f64 {
    m.shared as f64 / m.all as f64
}

const ALL: Threshold = Threshold { num: 0, den: 1 };

#[test]
fn trigrams_of_a_short_string() {
    let t = with_trigrams("lb");
    assert_eq!(
        t,
        vec![['$', '$', 'l'], ['$', 'l', 'b'], ['l', 'b', '$'], ['b', '$', '$']]
    );
}

#[test]
fn trigram_count_is_length_plus_two() {
    for s in ["a", "ab", "hammock", "Grüße"] {
        let n = normalize(s).len();
        assert_eq!(with_trigrams(s).len(), n + 2);
    }
}

#[test]
fn empty_string_has_one_trigram() {
    assert_eq!(with_trigrams(""), vec![['$', '$', '$']]);
}

#[test]
fn normalize_lowercases() {
    assert_eq!(normalize("HaM"), vec!['h', 'a', 'm']);
}

#[test]
fn normalize_composes() {
    assert_eq!(normalize("e\u{301}"), vec!['\u{e9}']);
}

#[test]
fn trigrams_of_chars_pads_both_ends() {
    assert_eq!(
        trigrams_of_chars(&vec!['x']),
        vec![['$', '$', 'x'], ['$', 'x', '$'], ['x', '$', '$']]
    );
}

#[test]
fn count_trigrams_aggregates() {
    let t = with_trigrams("aaaa");
    let c = count_trigrams(&t);
    assert_eq!(
        c,
        vec![
            (['$', '$', 'a'], 1),
            (['$', 'a', 'a'], 1),
            (['a', 'a', 'a'], 2),
            (['a', 'a', '$'], 1),
            (['a', '$', '$'], 1)
        ]
    );
}

#[test]
fn lookup_of_a_single_string() {
    let bytes = build(&[("lb", 1)]);
    let ix = Ngrams::from_bytes(&bytes);
    let leaves = ix.search_ngram(&['l', 'b', '$']).unwrap();
    assert_eq!(leaves, vec![Leaf { id: 1, count: 1, total_ngrams: 4 }]);
}

#[test]
fn lookup_of_an_absent_trigram() {
    let bytes = build(&[("lb", 1)]);
    let ix = Ngrams::from_bytes(&bytes);
    assert_eq!(ix.search_ngram(&['x', 'y', 'z']).unwrap(), vec![]);
    assert_eq!(ix.search_ngram(&['l', 'b', 'x']).unwrap(), vec![]);
}

#[test]
fn ranking_of_ham() {
    let bytes = build(&[("spam", 1), ("ham", 2), ("hammock", 3)]);
    let ix = Ngrams::from_bytes(&bytes);
    let r = ix.search("ham", ALL).unwrap();
    let ids: Vec<u32> = r.iter().map(|m| m.id).collect();
    assert_eq!(ids, vec![2, 3, 1]);
    assert!(score(&r[0]) > score(&r[1]));
    assert_eq!(r[0], Match { id: 2, shared: 5, all: 5 });
    assert_eq!(r[1], Match { id: 3, shared: 3, all: 11 });
    assert_eq!(r[2], Match { id: 1, shared: 2, all: 9 });
}

#[test]
fn exact_match_scores_one() {
    let bytes = build(&[("apple", 10), ("apply", 11), ("maple", 12), ("banana", 13)]);
    let ix = Ngrams::from_bytes(&bytes);
    let r = ix.search("apply", ALL).unwrap();
    assert_eq!(r[0].id, 11);
    assert_eq!(r[0].shared, r[0].all);
    assert!((score(&r[0]) - 1.0).abs() < 1e-12);
    assert!(r[1..].iter().all(|m| score(m) < 1.0));
}

#[test]
fn scores_lie_between_zero_and_one() {
    let bytes = build(&[("spam", 1), ("ham", 2), ("hammock", 3), ("sham", 4)]);
    let ix = Ngrams::from_bytes(&bytes);
    for q in ["ham", "spa", "mock", "x", ""] {
        for m in ix.search(q, ALL).unwrap() {
            let s = score(&m);
            assert!((0.0..=1.0).contains(&s));
        }
    }
}

#[test]
fn search_ignores_case() {
    let bytes = build(&[("spam", 1), ("ham", 2), ("hammock", 3)]);
    let ix = Ngrams::from_bytes(&bytes);
    assert_eq!(ix.search("HAM", ALL).unwrap(), ix.search("ham", ALL).unwrap());
}

#[test]
fn raising_the_threshold_shrinks_results() {
    let bytes = build(&[("spam", 1), ("ham", 2), ("hammock", 3)]);
    let ix = Ngrams::from_bytes(&bytes);
    let low = ix.search("ham", ALL).unwrap();
    let half = ix.search("ham", Threshold { num: 1, den: 4 }).unwrap();
    let high = ix.search("ham", Threshold { num: 1, den: 1 }).unwrap();
    assert!(high.len() <= half.len() && half.len() <= low.len());
    assert_eq!(low.len(), 3);
    assert_eq!(half.iter().map(|m| m.id).collect::<Vec<_>>(), vec![2, 3]);
    assert_eq!(high, vec![Match { id: 2, shared: 5, all: 5 }]);
}

#[test]
fn counts_saturate_at_255() {
    let s: String = std::iter::repeat('a').take(302).collect();
    let bytes = build(&[(s.as_str(), 7)]);
    let ix = Ngrams::from_bytes(&bytes);
    let leaves = ix.search_ngram(&['a', 'a', 'a']).unwrap();
    assert_eq!(leaves, vec![Leaf { id: 7, count: 255, total_ngrams: 255 }]);
}

#[test]
fn leaves_sorted_by_id_whatever_the_order() {
    let bytes = build(&[("abc", 9), ("abc", 3), ("abd", 5), ("abc", 1)]);
    let ix = Ngrams::from_bytes(&bytes);
    let leaves = ix.search_ngram(&['$', 'a', 'b']).unwrap();
    let ids: Vec<u32> = leaves.iter().map(|l| l.id).collect();
    assert_eq!(ids, vec![1, 3, 5, 9]);
}

#[test]
fn branches_sorted_by_character() {
    let mut b = NgramsBuilder::new();
    b.add_trigram("zzz", 1, 1, 3);
    b.add_trigram("aaa", 2, 1, 3);
    b.add_trigram("mmm", 3, 1, 3);
    let chars: Vec<u32> = b
        .data()
        .iter()
        .map(|e| match e {
            ngram_search::Entry::Branch(br) => br.character,
            ngram_search::Entry::Leaf(_) => panic!("leaf at the top"),
        })
        .collect();
    assert_eq!(chars, vec!['a' as u32, 'm' as u32, 'z' as u32]);
}

#[test]
fn add_trigram_then_read_back() {
    let mut b = NgramsBuilder::new();
    b.add_trigram("$$l", 1, 1, 4);
    b.add_trigram("$lb", 1, 1, 4);
    b.add_trigram("lb$", 1, 1, 4);
    b.add_trigram("b$$", 1, 1, 4);
    let mut bytes = Vec::new();
    b.write(&mut bytes).unwrap();
    let ix = Ngrams::from_bytes(&bytes);
    assert_eq!(
        ix.search_ngram(&['$', 'l', 'b']).unwrap(),
        vec![Leaf { id: 1, count: 1, total_ngrams: 4 }]
    );
}

#[test]
fn written_bytes_of_one_trigram() {
    let mut b = NgramsBuilder::new();
    b.add_trigram("abc", 258, 2, 5);
    let mut bytes = Vec::new();
    b.write(&mut bytes).unwrap();
    let expected: Vec<u8> = vec![
        1, 0, 0, 0, 1, 0, 0, 0, 97, 0, 0, 0, 13, // root: 'a' at 13
        1, 0, 0, 0, 1, 0, 0, 0, 98, 0, 0, 0, 26, // 'b' at 26
        1, 0, 0, 0, 1, 0, 0, 0, 99, 0, 0, 0, 39, // 'c' at 39
        2, 0, 0, 0, 1, 0, 0, 1, 2, 2, 5, // one leaf
    ];
    assert_eq!(bytes, expected);
}

#[test]
fn writing_an_empty_builder_fails() {
    let b = NgramsBuilder::new();
    let mut bytes = Vec::new();
    assert_eq!(b.write(&mut bytes), Err(WriteError::Empty));
    assert!(bytes.is_empty());
}

#[test]
fn empty_bytes_are_truncated() {
    let bytes = vec![];
    let ix = Ngrams::from_bytes(&bytes);
    assert_eq!(ix.search_ngram(&['a', 'b', 'c']), Err(FormatError::Truncated));
    assert_eq!(ix.search("abc", ALL), Err(SearchError::Format(FormatError::Truncated)));
}

#[test]
fn a_leaf_tag_at_the_root_is_invalid() {
    let bytes = vec![2, 0, 0, 0, 0];
    let ix = Ngrams::from_bytes(&bytes);
    assert_eq!(ix.search_ngram(&['a', 'b', 'c']), Err(FormatError::InvalidBranch));
}

#[test]
fn a_branch_tag_at_the_bottom_is_invalid() {
    let mut b = NgramsBuilder::new();
    b.add_trigram("abc", 1, 1, 3);
    let mut bytes = Vec::new();
    b.write(&mut bytes).unwrap();
    bytes[39] = 1;
    let ix = Ngrams::from_bytes(&bytes);
    assert_eq!(ix.search_ngram(&['a', 'b', 'c']), Err(FormatError::InvalidLeaf));
}

#[test]
fn a_cut_leaf_record_is_truncated() {
    let mut b = NgramsBuilder::new();
    b.add_trigram("abc", 1, 1, 3);
    let mut bytes = Vec::new();
    b.write(&mut bytes).unwrap();
    bytes.pop();
    let ix = Ngrams::from_bytes(&bytes);
    assert_eq!(ix.search_ngram(&['a', 'b', 'c']), Err(FormatError::Truncated));
}

#[test]
fn unsorted_leaves_are_refused() {
    let mut b = NgramsBuilder::new();
    b.add_trigram("abc", 1, 1, 3);
    b.add_trigram("abc", 2, 1, 3);
    let mut bytes = Vec::new();
    b.write(&mut bytes).unwrap();
    // Swap the two ids.
    bytes[47] = 2;
    bytes[53] = 1;
    let ix = Ngrams::from_bytes(&bytes);
    assert_eq!(ix.search_ngram(&['a', 'b', 'c']).unwrap().len(), 2);
    let r = ix.search_trigrams(&vec![(['a', 'b', 'c'], 1)], ALL);
    assert_eq!(r, Err(SearchError::Format(FormatError::Unsorted)));
}

#[test]
fn search_trigrams_with_weights() {
    let bytes = build(&[("ab", 1), ("abab", 2)]);
    let ix = Ngrams::from_bytes(&bytes);
    let r = ix.search_trigrams(&vec![(['a', 'b', '$'], 2)], ALL).unwrap();
    // "ab" holds ab$ once, of 4 trigrams: shared 1, union 2 + 4 - 1.
    // "abab" holds ab$ once, of 6 trigrams: shared 1, union 2 + 6 - 1.
    assert_eq!(
        r,
        vec![Match { id: 1, shared: 1, all: 5 }, Match { id: 2, shared: 1, all: 7 }]
    );
}

#[test]
fn merge_of_posting_lists() {
    let l = |id: u32, count: u8, total: u8| Leaf { id, count, total_ngrams: total };
    let hits = vec![
        (vec![l(1, 2, 10), l(4, 1, 6)], 1u32),
        (vec![l(2, 1, 3), l(4, 3, 6)], 2u32),
        (vec![], 5u32),
    ];
    let m = merge_hits(&hits);
    assert_eq!(
        m,
        vec![
            Match { id: 1, shared: 1, all: 8 + 10 - 1 },
            Match { id: 2, shared: 1, all: 8 + 3 - 1 },
            Match { id: 4, shared: 3, all: 8 + 6 - 3 },
        ]
    );
}

#[test]
fn rank_orders_by_score_then_id() {
    let ms = vec![
        Match { id: 1, shared: 1, all: 4 },
        Match { id: 2, shared: 1, all: 2 },
        Match { id: 3, shared: 2, all: 8 },
        Match { id: 4, shared: 0, all: 3 },
    ];
    let r = rank(&ms, &Threshold { num: 1, den: 5 });
    let ids: Vec<u32> = r.iter().map(|m| m.id).collect();
    assert_eq!(ids, vec![2, 1, 3]);
}

#[test]
fn default_builder_is_empty() {
    let b = NgramsBuilder::default();
    assert!(b.data().is_empty());
    let mut bytes = vec![9u8];
    assert_eq!(b.write(&mut bytes), Err(WriteError::Empty));
    assert_eq!(bytes, vec![9u8]);
}

#[test]
fn writing_after_existing_bytes_keeps_them() {
    let mut b = NgramsBuilder::new();
    b.add("ab", 3);
    let mut fresh = Vec::new();
    b.write(&mut fresh).unwrap();
    let mut bytes = vec![7u8, 7u8];
    b.write(&mut bytes).unwrap();
    assert_eq!(&bytes[..2], &[7u8, 7u8]);
    assert_eq!(bytes.len(), 2 + fresh.len());
}

#[test]
fn search_reports_the_lookup_error() {
    let bytes = vec![2u8, 0, 0, 0, 0];
    let ix = Ngrams::from_bytes(&bytes);
    assert_eq!(
        ix.search("ab", ALL),
        Err(SearchError::Format(FormatError::InvalidBranch))
    );
    assert_eq!(
        ix.search_trigrams(&vec![(['$', '$', 'a'], 1)], ALL),
        Err(SearchError::Format(FormatError::InvalidBranch))
    );
}

#[test]
fn search_agrees_with_search_trigrams_on_the_count_list() {
    let bytes = build(&[("spam", 1), ("ham", 2), ("hammock", 3)]);
    let ix = Ngrams::from_bytes(&bytes);
    let t = with_trigrams("hamham");
    let query: Vec<([char; 3], u32)> =
        count_trigrams(&t).into_iter().map(|(k, c)| (k, c as u32)).collect();
    assert_eq!(ix.search("hamham", ALL), ix.search_trigrams(&query, ALL));
}

#[test]
fn add_trigrams_takes_a_trigram_list() {
    let mut b = NgramsBuilder::new();
    b.add_trigrams(&vec![['a', 'b', 'c'], ['a', 'b', 'c'], ['x', 'y', 'z']], 4);
    let mut bytes = Vec::new();
    b.write(&mut bytes).unwrap();
    let ix = Ngrams::from_bytes(&bytes);
    assert_eq!(
        ix.search_ngram(&['a', 'b', 'c']).unwrap(),
        vec![Leaf { id: 4, count: 2, total_ngrams: 3 }]
    );
}
