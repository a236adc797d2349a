use regex_search::acceptor::{Acceptor, compile};
use regex_search::dictionary::{TermDictionary, lex_lt_bytes};
use regex_search::matcher::{Matcher, matched_terms};
use regex_search::pattern::parse_pattern;
use regex_search::postings::{PostingStore, merge_ascending};

fn compiled(pattern: &str) -> Acceptor {
    compile(pattern.as_bytes()).unwrap()
}

fn dict(terms: Vec<&[u8]>) -> TermDictionary {
    TermDictionary::new(terms.into_iter().map(|t| t.to_vec()).collect()).unwrap()
}

#[test]
fn test_parse_rejects_control_and_reserved_escape() {
    assert!(parse_pattern(b"a\tb").is_none());
    assert!(parse_pattern(b"a\\d").is_none());
}

#[test]
fn test_non_ascii_literal_matches_its_utf8_bytes() {
    let a = compiled("caf\u{e9}");
    assert!(a.accepts("caf\u{e9}".as_bytes()));
    assert!(!a.accepts(b"cafe"));
    assert!(!a.accepts(b"caf"));
}

#[test]
fn test_acceptor_literal_and_class() {
    let a = compiled("jap[ao]n");
    assert!(a.accepts(b"japan"));
    assert!(a.accepts(b"japon"));
    assert!(!a.accepts(b"japen"));
    assert!(!a.accepts(b"japa"));
    assert!(!a.accepts(b"japann"));
}

#[test]
fn test_acceptor_repetition() {
    let a = compiled("d[ai]{2}ry");
    assert!(a.accepts(b"dairy"));
    assert!(a.accepts(b"diary"));
    assert!(a.accepts(b"daary"));
    assert!(!a.accepts(b"dary"));
    assert!(!a.accepts(b"daiiry"));
}

#[test]
fn test_acceptor_groups() {
    let a = compiled("(ab){2}");
    assert!(a.accepts(b"abab"));
    assert!(!a.accepts(b"ab"));
    assert!(!a.accepts(b"ababab"));
    let nested = compiled("((a)b){2}c");
    assert!(nested.accepts(b"ababc"));
    assert!(!nested.accepts(b"abc"));
    let with_class = compiled("(a[bc]){2}");
    assert!(with_class.accepts(b"abac"));
    assert!(with_class.accepts(b"acab"));
    assert!(!with_class.accepts(b"abad"));
}

#[test]
fn test_acceptor_zero_repetition() {
    let a = compiled("a{0}b");
    assert!(a.accepts(b"b"));
    assert!(!a.accepts(b"ab"));
}

#[test]
fn test_acceptor_wildcard_and_escape() {
    let a = compiled("a.c");
    assert!(a.accepts(b"abc"));
    assert!(a.accepts(b"a.c"));
    assert!(!a.accepts(b"ac"));
    let e = compiled("a\\.c");
    assert!(e.accepts(b"a.c"));
    assert!(!e.accepts(b"abc"));
}

#[test]
fn test_acceptor_negated_class_and_range() {
    let n = compiled("[^a]b");
    assert!(n.accepts(b"xb"));
    assert!(!n.accepts(b"ab"));
    let r = compiled("[a-c0-2]");
    assert!(r.accepts(b"b"));
    assert!(r.accepts(b"1"));
    assert!(!r.accepts(b"d"));
    assert!(!r.accepts(b"3"));
}

#[test]
fn test_class_edge_forms() {
    let trailing_dash = compiled("[a-]");
    assert!(trailing_dash.accepts(b"a"));
    assert!(trailing_dash.accepts(b"-"));
    assert!(!trailing_dash.accepts(b"b"));
    let escaped_bracket = compiled("[\\]x]");
    assert!(escaped_bracket.accepts(b"]"));
    assert!(escaped_bracket.accepts(b"x"));
    assert!(!escaped_bracket.accepts(b"y"));
}

#[test]
fn test_matcher_equals_brute_force() {
    let d = dict(vec![b"dairy", b"dary", b"diary", b"dory", b"zebra"]);
    let a = compiled("d[aio]{2}ry");
    let emitted = matched_terms(&d, &a);
    let mut brute: Vec<(Vec<u8>, usize)> = Vec::new();
    for ordinal in 0..d.num_terms() {
        let term = d.term(ordinal);
        if a.accepts(term.as_slice()) {
            brute.push((term.clone(), ordinal));
        }
    }
    assert_eq!(emitted, brute);
    assert_eq!(
        emitted,
        vec![(b"dairy".to_vec(), 0usize), (b"diary".to_vec(), 2usize)]
    );
}

#[test]
fn test_matcher_is_lazy_and_ordered() {
    let d = dict(vec![b"japan", b"japon", b"korea"]);
    let a = compiled("jap[ao]n");
    let mut m = Matcher::new(&d, &a);
    let first = m.next().unwrap();
    assert_eq!(first, (b"japan".to_vec(), 0usize));
    let second = m.next().unwrap();
    assert_eq!(second, (b"japon".to_vec(), 1usize));
    assert!(m.next().is_none());
    assert!(m.next().is_none());
}

#[test]
fn test_matcher_prunes_to_empty() {
    let d = dict(vec![b"japan", b"korea"]);
    let a = compiled("zz");
    let mut m = Matcher::new(&d, &a);
    assert!(m.next().is_none());
}

fn table_row(edges: &[(u8, usize)]) -> Vec<Option<usize>> {
    let mut row = vec![None; 256];
    for (byte, next) in edges {
        row[*byte as usize] = Some(*next);
    }
    row
}

#[test]
fn test_cotraversal_over_hand_built_alternation_dfa() {
    // A table acceptor for the two-word language {ab, cd}, which is not a
    // chain: state 0 branches on the first byte.
    let acceptor = Acceptor {
        trans: vec![
            table_row(&[(b'a', 1), (b'c', 2)]),
            table_row(&[(b'b', 3)]),
            table_row(&[(b'd', 3)]),
            table_row(&[]),
        ],
        accept: vec![false, false, false, true],
    };
    assert!(acceptor.accepts(b"ab"));
    assert!(acceptor.accepts(b"cd"));
    assert!(!acceptor.accepts(b"ad"));
    assert!(!acceptor.accepts(b"a"));
    let d = dict(vec![b"ab", b"ax", b"cd", b"ce"]);
    let emitted = matched_terms(&d, &acceptor);
    assert_eq!(
        emitted,
        vec![(b"ab".to_vec(), 0usize), (b"cd".to_vec(), 2usize)]
    );
}

#[test]
fn test_dictionary_rejects_unsorted_or_duplicate() {
    assert!(TermDictionary::new(vec![b"korea".to_vec(), b"japan".to_vec()]).is_none());
    assert!(TermDictionary::new(vec![b"japan".to_vec(), b"japan".to_vec()]).is_none());
    assert!(TermDictionary::new(vec![b"japan".to_vec(), b"korea".to_vec()]).is_some());
}

#[test]
fn test_lexicographic_order() {
    assert!(lex_lt_bytes(&b"jap".to_vec(), &b"japan".to_vec()));
    assert!(lex_lt_bytes(&b"japan".to_vec(), &b"japon".to_vec()));
    assert!(!lex_lt_bytes(&b"japan".to_vec(), &b"japan".to_vec()));
    assert!(!lex_lt_bytes(&b"korea".to_vec(), &b"japan".to_vec()));
}

#[test]
fn test_merge_ascending_dedup() {
    let merged = merge_ascending(&vec![1, 3, 5], &vec![2, 3, 6]);
    assert_eq!(merged, vec![1, 2, 3, 5, 6]);
    let empty = merge_ascending(&Vec::new(), &Vec::new());
    assert!(empty.is_empty());
}

#[test]
fn test_posting_store_rejects_descending() {
    assert!(PostingStore::new(vec![vec![1, 2], vec![3, 1]]).is_none());
    assert!(PostingStore::new(vec![vec![1, 1]]).is_none());
    assert!(PostingStore::new(vec![vec![], vec![0, 7]]).is_some());
}
