use papyrus::bible::{Bible, RawRecord, Verse};
use papyrus::search::{search, search_parallel, Match};

fn record(book: u8, chapter: u8, verse: u8, text: &str) -> RawRecord {
    RawRecord { book, chapter, verse, text: text.to_string() }
}

fn corpus(texts: &[&str]) -> Bible {
    let records: Vec<RawRecord> = texts
        .iter()
        .enumerate()
        .map(|(i, t)| record(1, 1, (i + 1) as u8, t))
        .collect();
    Bible::new(&records).unwrap()
}

fn scores(matches: &[Match]) -> Vec<usize> {
    matches.iter().map(|m| m.distance).collect()
}

fn verse_numbers(matches: &[Match]) -> Vec<u8> {
    matches.iter().map(|m| m.verse.verse).collect()
}

#[test]
fn subsequence_match_with_gap() {
    // "jn" inside "john": matched at positions 0 and 3, gap 3 - 0 - 1 = 2.
    let bible = corpus(&["john"]);
    let verses = bible.get_verses();
    let matches = search("jn".to_string(), &verses, 10);
    assert_eq!(matches.len(), 1);
    assert_eq!(matches[0].distance, 2);
}

#[test]
fn no_match_when_not_subsequence() {
    let bible = corpus(&["john"]);
    let verses = bible.get_verses();
    let matches = search("xyz".to_string(), &verses, 10);
    assert_eq!(matches.len(), 0);
}

#[test]
fn contiguous_substring_scores_zero() {
    let bible = corpus(&["in the beginning"]);
    let verses = bible.get_verses();
    let matches = search("begin".to_string(), &verses, 10);
    assert_eq!(matches.len(), 1);
    assert_eq!(matches[0].distance, 0);
}

#[test]
fn empty_query_returns_first_records_in_order() {
    let bible = corpus(&["alpha", "beta", "gamma", "delta", "epsilon"]);
    let verses = bible.get_verses();
    let matches = search(String::new(), &verses, 3);
    assert_eq!(scores(&matches), vec![0, 0, 0]);
    assert_eq!(verse_numbers(&matches), vec![1, 2, 3]);

    let all = search(String::new(), &verses, 10);
    assert_eq!(all.len(), 5);
    assert_eq!(verse_numbers(&all), vec![1, 2, 3, 4, 5]);
}

#[test]
fn output_is_bounded_by_k() {
    let bible = corpus(&["aa", "ab", "ba", "bb", "abab", "baba"]);
    let verses = bible.get_verses();
    for k in 0..8 {
        let matches = search("a".to_string(), &verses, k);
        assert!(matches.len() <= k);
    }
    assert_eq!(search("a".to_string(), &verses, 0).len(), 0);
}

#[test]
fn results_sorted_by_score_then_corpus_order() {
    // Gaps: "acb" scores 1, "ab" scores 0, "axxb" scores 2, "ab" again 0.
    let bible = corpus(&["acb", "ab", "axxb", "ab"]);
    let verses = bible.get_verses();
    let matches = search("ab".to_string(), &verses, 10);
    assert_eq!(scores(&matches), vec![0, 0, 1, 2]);
    // The two zero scores keep corpus order.
    assert_eq!(verse_numbers(&matches), vec![2, 4, 1, 3]);
}

#[test]
fn no_premature_rejection_below_capacity() {
    // A worse match arriving after a better one must still be kept while
    // the list is under capacity.
    let bible = corpus(&["acccccb", "acccccccb"]);
    let verses = bible.get_verses();
    let matches = search("ab".to_string(), &verses, 10);
    assert_eq!(scores(&matches), vec![5, 7]);
}

#[test]
fn full_list_keeps_better_matches_only() {
    let bible = corpus(&["axxxb", "ab", "axb", "ab"]);
    let verses = bible.get_verses();
    let matches = search("ab".to_string(), &verses, 2);
    assert_eq!(scores(&matches), vec![0, 0]);
    assert_eq!(verse_numbers(&matches), vec![2, 4]);
}

#[test]
fn shard_merge_equals_single_scan() {
    let texts = [
        "in the beginning", "god created", "the heaven", "and the earth", "was without form",
        "and void", "and darkness", "upon the face", "of the deep", "spirit of god", "moved upon",
        "the waters",
    ];
    let bible = corpus(&texts);
    let verses = bible.get_verses();
    for query in ["the", "god", "o", "zzz", "", "and"] {
        let base = search(query.to_string(), &verses, 4);
        for shard_count in [1, 2, 3, 5, 12, 40] {
            let sharded = search_parallel(query.to_string(), &verses, shard_count, 4);
            assert_eq!(scores(&base), scores(&sharded));
            let base_ids: Vec<(u8, u8, u8)> =
                base.iter().map(|m| (m.verse.book, m.verse.chapter, m.verse.verse)).collect();
            let sharded_ids: Vec<(u8, u8, u8)> =
                sharded.iter().map(|m| (m.verse.book, m.verse.chapter, m.verse.verse)).collect();
            assert_eq!(base_ids, sharded_ids);
        }
    }
}

#[test]
fn search_is_deterministic() {
    let bible = corpus(&["one fish", "two fish", "red fish", "blue fish"]);
    let verses = bible.get_verses();
    let first = search("fish".to_string(), &verses, 3);
    let second = search("fish".to_string(), &verses, 3);
    assert_eq!(scores(&first), scores(&second));
    assert_eq!(verse_numbers(&first), verse_numbers(&second));
}

#[test]
fn end_to_end_scenario() {
    let records = vec![
        record(1, 1, 1, "In the beginning God created"),
        record(1, 1, 2, "And the earth was without form"),
    ];
    let bible = Bible::new(&records).unwrap();
    let verses = bible.get_verses();
    let matches = search("begod".to_string(), &verses, 10);
    // Only the first record matches. Against the literal normalized text
    // "in the beginning god created", the greedy scan matches b-e-g at
    // positions 7-9, then o at 18 and d at 19: eight characters stand
    // between the g and the o, so the score is 8.
    assert_eq!(matches.len(), 1);
    assert_eq!(matches[0].verse.book, 1);
    assert_eq!(matches[0].verse.chapter, 1);
    assert_eq!(matches[0].verse.verse, 1);
    assert_eq!(matches[0].distance, 8);
}

#[test]
fn query_is_case_folded() {
    let records = vec![
        record(1, 1, 1, "In the beginning God created"),
        record(1, 1, 2, "And the earth was without form"),
    ];
    let bible = Bible::new(&records).unwrap();
    let verses = bible.get_verses();
    // "GOD" only matches because both sides are case folded.
    let matches = search("GOD".to_string(), &verses, 10);
    assert_eq!(matches.len(), 1);
    assert_eq!(matches[0].verse.verse, 1);
    assert_eq!(matches[0].distance, 8);
}

#[test]
fn absent_characters_yield_empty_result() {
    let bible = corpus(&["alpha", "beta"]);
    let verses = bible.get_verses();
    let matches = search("q".to_string(), &verses, 10);
    assert!(matches.is_empty());
}

#[test]
fn parallel_search_on_empty_corpus() {
    let bible = corpus(&[]);
    let verses: Vec<Verse> = bible.get_verses();
    let matches = search_parallel("abc".to_string(), &verses, 4, 10);
    assert!(matches.is_empty());
}

#[test]
fn get_query_finds_first_query_parameter() {
    let pairs = vec![
        ("page".to_string(), "2".to_string()),
        ("query".to_string(), "begin".to_string()),
        ("query".to_string(), "later".to_string()),
    ];
    assert_eq!(papyrus::frontend::get_query(&pairs), Some("begin".to_string()));
}

#[test]
fn get_query_reports_missing_parameter() {
    let pairs = vec![("page".to_string(), "2".to_string())];
    assert_eq!(papyrus::frontend::get_query(&pairs), None);
    assert_eq!(papyrus::frontend::get_query(&Vec::new()), None);
}
