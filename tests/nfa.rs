use lancelot::nfa::{Pattern, NFA};

#[test]
fn test_empty_build() {
    let nfa = NFA::new().build();
    assert!(nfa.find_matches(&[0xAA, 0xBB]).is_empty());
}

#[test]
fn test_add_one_pattern() {
    let mut b = NFA::new();
    b.add_pattern(Pattern::parse(b"AABBCCDD").unwrap());

    let nfa = b.build();
    assert_eq!(nfa.find_matches(&[0xAA, 0xBB, 0xCC, 0xDD]), vec![0]);
}

#[test]
fn test_add_two_patterns() {
    let mut b = NFA::new();
    b.add_pattern(Pattern::parse(b"AABBCCDD").unwrap());
    b.add_pattern(Pattern::parse(b"AABBCCCC").unwrap());

    let nfa = b.build();
    assert_eq!(nfa.find_matches(&[0xAA, 0xBB, 0xCC, 0xDD]), vec![0]);
    assert_eq!(nfa.find_matches(&[0xAA, 0xBB, 0xCC, 0xCC]), vec![1]);
    assert!(nfa.find_matches(&[0xAA, 0xBB, 0xCC, 0xEE]).is_empty());
}

#[test]
fn nfa_wildcard_matches_any_byte() {
    let mut b = NFA::new();
    b.add_pattern(Pattern::parse(b"AA..CC").unwrap());
    let nfa = b.build();
    for x in [0x00u8, 0x42, 0xFF] {
        assert_eq!(nfa.find_matches(&[0xAA, x, 0xCC]), vec![0]);
    }
    assert!(nfa.find_matches(&[0xAB, 0x00, 0xCC]).is_empty());
}

#[test]
fn nfa_reports_every_matching_pattern() {
    let mut b = NFA::new();
    b.add_pattern(Pattern::parse(b"AABB").unwrap());
    b.add_pattern(Pattern::parse(b"AA..").unwrap());
    b.add_pattern(Pattern::parse(b"AA").unwrap());
    b.add_pattern(Pattern::parse(b"BB").unwrap());
    let nfa = b.build();
    let mut m = nfa.find_matches(&[0xAA, 0xBB, 0x00]);
    m.sort();
    assert_eq!(m, vec![0, 1, 2]);
}

#[test]
fn nfa_input_shorter_than_pattern_does_not_match() {
    let mut b = NFA::new();
    b.add_pattern(Pattern::parse(b"AABBCC").unwrap());
    let nfa = b.build();
    assert!(nfa.find_matches(&[0xAA, 0xBB]).is_empty());
}

#[test]
fn pattern_parse_rejects_bad_text() {
    assert!(Pattern::parse(b"").is_none());
    assert!(Pattern::parse(b"AAB").is_none());
    assert!(Pattern::parse(b"AAXY").is_none());
    assert!(Pattern::parse(b"A.").is_none());
    assert_eq!(Pattern::parse(b"0a..").unwrap().0.iter().map(|s| s.0).collect::<Vec<u16>>(), vec![0x0A, 0x100]);
}
