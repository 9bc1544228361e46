use refgraph::scanner::{extract_main_id, scan, scan_tokens, token_value};

fn bytes(s: &str) -> Vec<u8> {
    s.as_bytes().to_vec()
}

fn token_strings(content: &str) -> Vec<String> {
    scan_tokens(&bytes(content))
        .into_iter()
        .map(|t| String::from_utf8(t).unwrap())
        .collect()
}

#[test]
fn scan_finds_tokens_anywhere() {
    let toks = token_strings("refs A000002 and A999999, done");
    assert_eq!(toks, vec!["A000002".to_string(), "A999999".to_string()]);
}

#[test]
fn scan_collapses_repeated_tokens() {
    let toks = token_strings("A000002 A000002 A000002 A000002 A000002");
    assert_eq!(toks, vec!["A000002".to_string()]);
}

#[test]
fn scan_matches_are_non_overlapping() {
    // Adjacent tokens both match; the scan resumes after a match.
    let toks = token_strings("A123456A654321");
    assert_eq!(toks, vec!["A123456".to_string(), "A654321".to_string()]);
    // A second prefix letter directly before a token does not hide it.
    let toks = token_strings("AA123456");
    assert_eq!(toks, vec!["A123456".to_string()]);
}

#[test]
fn scan_requires_full_digit_width() {
    assert!(token_strings("A12345").is_empty());
    assert!(token_strings("A12x456").is_empty());
    // Seven digits still contain one full-width match.
    assert_eq!(token_strings("A1234567"), vec!["A123456".to_string()]);
}

#[test]
fn scan_tolerates_binary_content() {
    let mut content = vec![0u8, 255, 254, 10, 13];
    content.extend_from_slice(b"A000008");
    content.push(0);
    let toks = scan_tokens(&content);
    assert_eq!(toks.len(), 1);
    assert_eq!(toks[0], b"A000008".to_vec());
}

#[test]
fn primary_id_found() {
    let r = extract_main_id(&bytes("%I A000045 M0692 N0256\n%S 0,1,1,2,3,5\n"));
    assert_eq!(r.unwrap().value, 45);
}

#[test]
fn primary_id_absent_is_none() {
    assert!(extract_main_id(&bytes("no marker here A000045")).is_none());
    assert!(extract_main_id(&bytes("")).is_none());
}

#[test]
fn primary_id_needs_line_start() {
    // A marker in the middle of a line is not a primary identifier.
    assert!(extract_main_id(&bytes("x%I A000045\n")).is_none());
    assert!(extract_main_id(&bytes("see %I A000045 here")).is_none());
    // At the start of a later line it counts.
    let r = extract_main_id(&bytes("header line\n%I A000045\n"));
    assert_eq!(r.unwrap().value, 45);
}

#[test]
fn primary_id_first_match_wins() {
    let r = extract_main_id(&bytes("%I A000001\n%I A000002\n"));
    assert_eq!(r.unwrap().value, 1);
}

#[test]
fn scan_returns_primary_and_tokens() {
    let (primary, toks) = scan(&bytes("%I A000045\nrefs A000032\n"));
    assert_eq!(primary.unwrap().value, 45);
    // The marker line's own token is collected too.
    let texts: Vec<String> = toks.into_iter().map(|t| String::from_utf8(t).unwrap()).collect();
    assert_eq!(texts, vec!["A000045".to_string(), "A000032".to_string()]);
}

#[test]
fn token_value_reads_digits() {
    assert_eq!(token_value(&b"A000123".to_vec()), 123);
    assert_eq!(token_value(&b"A999999".to_vec()), 999999);
}
