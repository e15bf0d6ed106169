use papyrus::bible::{parse_record, parse_small_int, Bible, CorpusError, RawRecord};
use papyrus::normalise::normalise_text;

fn record(book: u8, chapter: u8, verse: u8, text: &str) -> RawRecord {
    RawRecord { book, chapter, verse, text: text.to_string() }
}

#[test]
fn arena_round_trip_preserves_texts() {
    let records = vec![
        record(1, 1, 1, "In the Beginning"),
        record(1, 1, 2, "And GOD said"),
        record(2, 3, 4, ""),
        record(5, 6, 7, "light"),
    ];
    let bible = Bible::new(&records).unwrap();
    let verses = bible.get_verses();
    assert_eq!(verses.len(), records.len());
    for (v, r) in verses.iter().zip(records.iter()) {
        let display: String = v.read_text.iter().collect();
        let search_form: String = v.search_text.iter().collect();
        assert_eq!(display, r.text);
        assert_eq!(search_form, normalise_text(&r.text));
        assert_eq!((v.book, v.chapter, v.verse), (r.book, r.chapter, r.verse));
    }
}

#[test]
fn normalisation_folds_case_and_composes() {
    assert_eq!(normalise_text("GOD"), "god");
    assert_eq!(normalise_text("In The Beginning"), "in the beginning");
    // Capital sigma folds to the non-final lowercase sigma.
    assert_eq!(normalise_text("\u{03A3}"), "\u{03C3}");
    // A combining acute accent is composed onto its base letter.
    assert_eq!(normalise_text("E\u{0301}clair"), "\u{00E9}clair");
    assert_eq!(normalise_text(""), "");
}

#[test]
fn record_too_large_is_rejected() {
    let big = "a".repeat(0x10000);
    let records = vec![record(1, 1, 1, "fine"), record(1, 1, 2, &big)];
    assert!(matches!(Bible::new(&records), Err(CorpusError::RecordTooLarge)));
}

#[test]
fn record_at_length_budget_is_accepted() {
    let edge = "a".repeat(0xFFFF);
    let records = vec![record(1, 1, 1, &edge)];
    let bible = Bible::new(&records).unwrap();
    let verses = bible.get_verses();
    assert_eq!(verses[0].read_text.len(), 0xFFFF);
}

#[test]
fn empty_corpus_builds() {
    let records: Vec<RawRecord> = Vec::new();
    let bible = Bible::new(&records).unwrap();
    assert_eq!(bible.get_verses().len(), 0);
}

#[test]
fn parse_small_int_accepts_field_grammar() {
    assert_eq!(parse_small_int("7"), Some(7));
    assert_eq!(parse_small_int("255"), Some(255));
    assert_eq!(parse_small_int("0"), Some(0));
    assert_eq!(parse_small_int(" 12 "), Some(12));
    assert_eq!(parse_small_int("+7"), Some(7));
    assert_eq!(parse_small_int("007"), Some(7));
}

#[test]
fn parse_small_int_rejects_bad_fields() {
    assert_eq!(parse_small_int(""), None);
    assert_eq!(parse_small_int("   "), None);
    assert_eq!(parse_small_int("256"), None);
    assert_eq!(parse_small_int("abc"), None);
    assert_eq!(parse_small_int("1a"), None);
    assert_eq!(parse_small_int("-1"), None);
    assert_eq!(parse_small_int("+"), None);
    assert_eq!(parse_small_int("1 2"), None);
}

#[test]
fn parse_record_assembles_fields() {
    let rec = parse_record(Some("1"), Some(" 2"), Some("3 "), Some("In the beginning")).unwrap();
    assert_eq!((rec.book, rec.chapter, rec.verse), (1, 2, 3));
    assert_eq!(rec.text, "In the beginning");
}

#[test]
fn parse_record_reports_malformed_fields() {
    assert_eq!(
        parse_record(None, Some("2"), Some("3"), Some("t")).unwrap_err(),
        CorpusError::MalformedRecord
    );
    assert_eq!(
        parse_record(Some("x"), Some("2"), Some("3"), Some("t")).unwrap_err(),
        CorpusError::MalformedRecord
    );
    assert_eq!(
        parse_record(Some("1"), Some("999"), Some("3"), Some("t")).unwrap_err(),
        CorpusError::MalformedRecord
    );
    assert_eq!(
        parse_record(Some("1"), Some("2"), Some("3"), None).unwrap_err(),
        CorpusError::MalformedRecord
    );
}

#[test]
fn source_unavailable_is_distinct() {
    // The variant produced at the record-source boundary compares apart
    // from the arena's own errors.
    assert_ne!(CorpusError::SourceUnavailable, CorpusError::MalformedRecord);
    assert_ne!(CorpusError::SourceUnavailable, CorpusError::RecordTooLarge);
}
