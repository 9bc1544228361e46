use refgraph::codec::Identifier;
use refgraph::index::AllowList;
use refgraph::pipeline::{edge_table, RecordData};
use refgraph::resolver::resolve;
use refgraph::scanner::scan_tokens;

fn record(name: &str, content: &str) -> RecordData {
    RecordData { name: name.to_string(), content: content.as_bytes().to_vec() }
}

fn rows_of(records: &Vec<RecordData>) -> Vec<(String, String)> {
    edge_table(records)
}

#[test]
fn two_records_one_edge() {
    // Corpus of two records: self-reference and unknown target dropped,
    // exactly one row remains.
    let records = vec![
        record("A000001.seq", "...refs A000002 and A000001 and A999999..."),
        record("A000002.seq", "no references here"),
    ];
    let rows = rows_of(&records);
    assert_eq!(rows, vec![("A000001".to_string(), "A000002".to_string())]);
}

#[test]
fn repeated_token_gives_one_row() {
    let records = vec![
        record("A000001.seq", "A000002 A000002 A000002 A000002 A000002"),
        record("A000002.seq", ""),
    ];
    let rows = rows_of(&records);
    assert_eq!(rows, vec![("A000001".to_string(), "A000002".to_string())]);
}

#[test]
fn undecodable_name_is_excluded_but_others_proceed() {
    // "notes.txt" is not an identifier: it joins no allow-list and no
    // edge endpoint, while valid references elsewhere still flow.
    let records = vec![
        record("notes.txt", "A000001 A000002 text mentioning records"),
        record("A000001.seq", "see A000002"),
        record("A000002.seq", "see A000001"),
    ];
    let rows = rows_of(&records);
    assert_eq!(
        rows,
        vec![
            ("A000001".to_string(), "A000002".to_string()),
            ("A000002".to_string(), "A000001".to_string()),
        ]
    );
}

#[test]
fn self_reference_dropped_despite_padding() {
    // The record's name carries fewer digits than the token; resolution
    // compares numeric values, so the self-reference is still dropped.
    let records = vec![record("A1.seq", "A000001 A000002"), record("A000002.seq", "")];
    let rows = rows_of(&records);
    assert_eq!(rows, vec![("A000001".to_string(), "A000002".to_string())]);
}

#[test]
fn run_twice_same_rows() {
    let records = vec![
        record("A000010.seq", "A000020 junk A000030"),
        record("A000020.seq", "A000010"),
        record("A000030.seq", ""),
    ];
    let first = rows_of(&records);
    let second = rows_of(&records);
    assert_eq!(first, second);
    // Re-enumerated in another order, the same rows come out as a set.
    let reordered = vec![
        record("A000030.seq", ""),
        record("A000020.seq", "A000010"),
        record("A000010.seq", "A000020 junk A000030"),
    ];
    let third = rows_of(&reordered);
    assert_eq!(first.len(), third.len());
    for row in &first {
        assert!(third.contains(row));
    }
    for row in &third {
        assert!(first.contains(row));
    }
}

#[test]
fn empty_corpus_gives_empty_table() {
    let rows = rows_of(&vec![]);
    assert!(rows.is_empty());
}

#[test]
fn resolve_drops_self_unknown_and_malformed() {
    let mut allow = AllowList::new();
    allow.insert(Identifier { value: 1 });
    allow.insert(Identifier { value: 2 });
    let toks = scan_tokens(&b"A000001 A000002 A999999".to_vec());
    let src = Identifier { value: 1 };
    let out = resolve(src, &toks, &allow);
    assert_eq!(out.len(), 1);
    assert_eq!(out[0].value, 2);
}

#[test]
fn resolve_ignores_token_shapes_that_fail_to_decode() {
    let mut allow = AllowList::new();
    allow.insert(Identifier { value: 2 });
    let src = Identifier { value: 1 };
    let toks: Vec<Vec<u8>> = vec![b"A00000x".to_vec(), b"A000002".to_vec()];
    let out = resolve(src, &toks, &allow);
    assert_eq!(out.len(), 1);
    assert_eq!(out[0].value, 2);
}

#[test]
fn allow_list_membership() {
    let names = vec!["A000001.seq".to_string(), "junk".to_string(), "A000003.seq".to_string()];
    let allow = AllowList::from_names(&names);
    assert!(allow.contains(Identifier { value: 1 }));
    assert!(allow.contains(Identifier { value: 3 }));
    assert!(!allow.contains(Identifier { value: 2 }));
}
