use fuzzy_match::codec::encode_records;
use fuzzy_match::{Record, SearchEngine};

fn record(id: &str, title: &str, url: &str) -> Record {
    Record { id: String::from(id), title: String::from(title), url: String::from(url) }
}

fn ids(engine: &SearchEngine) -> Vec<String> {
    let mut out = Vec::new();
    let n = engine.record_count();
    let mut i = 0;
    while i < n {
        out.push(engine.record(i).id.clone());
        i += 1;
    }
    out
}

#[test]
fn empty_engine_has_no_records() {
    let engine = SearchEngine::new();
    assert_eq!(engine.record_count(), 0);
}

#[test]
fn load_parses_well_formed_lines() {
    let mut engine = SearchEngine::new();
    engine.load_dataset(b"1\0Rust Guide\0https://example.org/rust\n2\0Go Guide\0https://example.org/go");
    assert_eq!(engine.record_count(), 2);
    assert_eq!(engine.record(0).id, "1");
    assert_eq!(engine.record(0).title, "Rust Guide");
    assert_eq!(engine.record(0).url, "https://example.org/rust");
    assert_eq!(engine.record(1).id, "2");
}

#[test]
fn load_replaces_previous_records() {
    let mut engine = SearchEngine::new();
    engine.load_dataset(b"1\0a\0b");
    engine.load_dataset(b"7\0c\0d\n8\0e\0f");
    assert_eq!(ids(&engine), vec!["7".to_string(), "8".to_string()]);
}

#[test]
fn load_of_empty_buffer_installs_empty_store() {
    let mut engine = SearchEngine::new();
    engine.load_dataset(b"1\0a\0b");
    engine.load_dataset(b"");
    assert_eq!(engine.record_count(), 0);
}

#[test]
fn malformed_line_is_skipped() {
    let mut engine = SearchEngine::new();
    engine.load_dataset(b"1\0Rust Guide\0https://example.org/rust\nbroken\0only-two-fields");
    assert_eq!(engine.record_count(), 1);
    assert_eq!(engine.record(0).id, "1");
}

#[test]
fn buffer_of_only_malformed_lines_installs_empty_store() {
    let mut engine = SearchEngine::new();
    engine.load_dataset(b"1\0a\0b");
    engine.load_dataset(b"no-fields\njust\0two");
    assert_eq!(engine.record_count(), 0);
}

#[test]
fn fourth_component_is_ignored() {
    let mut engine = SearchEngine::new();
    engine.load_dataset(b"1\0t\0u\0extra");
    assert_eq!(engine.record_count(), 1);
    assert_eq!(engine.record(0).url, "u");
}

#[test]
fn hard_decode_failure_leaves_store_unchanged() {
    let mut engine = SearchEngine::new();
    engine.load_dataset(b"1\0a\0b\n2\0c\0d");
    engine.load_dataset(&[0xff, 0xfe, 0x80]);
    assert_eq!(engine.record_count(), 2);
    assert_eq!(engine.record(0).id, "1");
    assert_eq!(engine.record(0).title, "a");
    assert_eq!(engine.record(1).id, "2");
    assert_eq!(engine.record(1).url, "d");
}

#[test]
fn hard_decode_failure_leaves_add_unchanged() {
    let mut engine = SearchEngine::new();
    engine.load_dataset(b"1\0a\0b");
    engine.add_entries(&[0xc0, 0x00]);
    assert_eq!(engine.record_count(), 1);
}

#[test]
fn add_entries_grows_by_each_valid_line() {
    let mut engine = SearchEngine::new();
    engine.load_dataset(b"1\0a\0b");
    engine.add_entries(b"1\0dup of one\0u1\n1\0another dup\0u2\n9\0fresh\0u3");
    assert_eq!(engine.record_count(), 4);
    assert_eq!(ids(&engine), vec!["1", "1", "1", "9"]);
    assert_eq!(engine.record(1).title, "dup of one");
}

#[test]
fn remove_entry_removes_every_match_and_keeps_order() {
    let mut engine = SearchEngine::new();
    engine.load_dataset(b"1\0a\0ua\n2\0b\0ub\n1\0c\0uc\n3\0d\0ud\n1\0e\0ue");
    engine.remove_entry("1");
    assert_eq!(ids(&engine), vec!["2", "3"]);
    assert_eq!(engine.record(0).title, "b");
    assert_eq!(engine.record(1).title, "d");
}

#[test]
fn remove_entry_of_unknown_id_is_a_no_op() {
    let mut engine = SearchEngine::new();
    engine.load_dataset(b"1\0a\0ua\n2\0b\0ub");
    engine.remove_entry("404");
    assert_eq!(ids(&engine), vec!["1", "2"]);
}

#[test]
fn round_trip_of_encoded_records() {
    let records = vec![
        record("1", "Rust Guide", "https://example.org/rust"),
        record("2", "Go Guide", "https://example.org/go"),
        record("", "", ""),
    ];
    let buffer = encode_records(&records);
    let mut engine = SearchEngine::new();
    engine.load_dataset(&buffer);
    assert_eq!(engine.record_count(), 3);
    for (i, r) in records.iter().enumerate() {
        assert_eq!(&engine.record(i).id, &r.id);
        assert_eq!(&engine.record(i).title, &r.title);
        assert_eq!(&engine.record(i).url, &r.url);
    }
}

#[test]
fn encode_records_writes_delimited_lines() {
    let records = vec![record("1", "a", "b"), record("2", "c", "d")];
    assert_eq!(encode_records(&records), b"1\0a\0b\n2\0c\0d".to_vec());
}

#[test]
fn example_scenario_ranks_the_matching_record_alone() {
    let mut engine = SearchEngine::new();
    engine.load_dataset(b"1\0Rust Guide\0https://example.org/rust\n2\0Go Guide\0https://example.org/go");
    let out = engine.search("Rust Guide");
    assert_eq!(out, b"https://example.org/rust\0Rust Guide".to_vec());
}

#[test]
fn search_is_case_insensitive_by_default() {
    let mut engine = SearchEngine::new();
    engine.load_dataset(b"1\0Rust Guide\0zzz://one\n2\0Something Else\0zzz://two");
    let out = engine.search("rust guide");
    assert_eq!(out, b"zzz://one\0Rust Guide".to_vec());
}

#[test]
fn empty_query_yields_empty_buffer() {
    let mut engine = SearchEngine::new();
    engine.load_dataset(b"1\0Rust Guide\0https://example.org/rust");
    assert_eq!(engine.search(""), Vec::<u8>::new());
}

#[test]
fn search_on_empty_store_yields_empty_buffer() {
    let engine = SearchEngine::new();
    assert_eq!(engine.search("anything"), Vec::<u8>::new());
}

#[test]
fn unrelated_query_yields_empty_buffer() {
    let mut engine = SearchEngine::new();
    engine.load_dataset(b"1\0Rust Guide\0zzz://one");
    assert_eq!(engine.search("qqqqwwwwzzzz"), Vec::<u8>::new());
}

#[test]
fn equal_scores_keep_insertion_order() {
    let mut engine = SearchEngine::new();
    // Identical titles, urls the query cannot touch: equal aggregate scores.
    engine.load_dataset(b"b\0Rust Guide\0zzz://one\na\0Rust Guide\0zzz://two");
    let out = engine.search("Rust Guide");
    assert_eq!(out, b"zzz://one\0Rust Guide\nzzz://two\0Rust Guide".to_vec());
}

#[test]
fn search_does_not_mutate_the_store() {
    let mut engine = SearchEngine::new();
    engine.load_dataset(b"1\0Rust Guide\0zzz://one\n2\0Go Guide\0zzz://two");
    let _ = engine.search("Rust Guide");
    assert_eq!(ids(&engine), vec!["1", "2"]);
}

#[test]
fn over_long_query_is_truncated_to_the_pattern_budget() {
    let mut engine = SearchEngine::new();
    // The title equals the first 32 bytes of the 40-byte query, so the
    // truncated pattern matches it exactly.
    engine.load_dataset(b"1\0abcdefghijklmnopqrstuvwxyzabcdef\0zzz://one");
    let out = engine.search("abcdefghijklmnopqrstuvwxyzabcdefXXXXXXXX");
    assert_eq!(out, b"zzz://one\0abcdefghijklmnopqrstuvwxyzabcdef".to_vec());
}
