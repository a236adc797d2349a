use regex_search::dictionary::TermDictionary;
use regex_search::postings::{PostingStore, ScoredDocCursor};
use regex_search::query::{Field, FieldIndex, QueryError, RegexQuery, Segment};

fn segment_one_field(terms: Vec<Vec<u8>>, lists: Vec<Vec<u32>>) -> Segment {
    let dictionary = TermDictionary::new(terms).unwrap();
    let postings = PostingStore::new(lists).unwrap();
    Segment { fields: vec![Some(FieldIndex { dictionary, postings })] }
}

fn drain(mut c: ScoredDocCursor) -> Vec<u32> {
    let mut out = Vec::new();
    while let Some(d) = c.doc() {
        out.push(d);
        c.advance();
    }
    out
}

#[test]
fn test_regex_query() {
    let segment = segment_one_field(
        vec![b"japan".to_vec(), b"korea".to_vec()],
        vec![vec![0], vec![1]],
    );
    {
        let regex_query = RegexQuery::new("jap[ao]n".to_string(), Field(0)).unwrap();
        let cursor = regex_query.evaluate(&segment).unwrap();
        let score = cursor.weight() as f32;
        assert!((score - 1f32).abs() < 1e-7);
        let scored_docs = drain(cursor);
        assert_eq!(scored_docs.len(), 1, "Expected only 1 document");
        assert_eq!(scored_docs[0], 0);
    }
    {
        let regex_query = RegexQuery::new("jap[A-Z]n".to_string(), Field(0)).unwrap();
        let cursor = regex_query.evaluate(&segment).unwrap();
        let scored_docs = drain(cursor);
        assert_eq!(scored_docs.len(), 0, "Expected ZERO document");
    }
}

#[test]
fn test_shared_document_reported_once() {
    let segment = segment_one_field(
        vec![b"japan".to_vec(), b"japon".to_vec()],
        vec![vec![2], vec![2]],
    );
    let query = RegexQuery::new("jap[ao]n".to_string(), Field(0)).unwrap();
    let docs = drain(query.evaluate(&segment).unwrap());
    assert_eq!(docs, vec![2]);
}

#[test]
fn test_stream_ascending_across_lists() {
    let segment = segment_one_field(
        vec![b"japan".to_vec(), b"japon".to_vec()],
        vec![vec![1, 2], vec![2, 3]],
    );
    let query = RegexQuery::new("jap[ao]n".to_string(), Field(0)).unwrap();
    let docs = drain(query.evaluate(&segment).unwrap());
    assert_eq!(docs, vec![1, 2, 3]);
}

#[test]
fn test_no_match_is_empty_not_error() {
    let segment = segment_one_field(
        vec![b"japan".to_vec(), b"korea".to_vec()],
        vec![vec![0], vec![1]],
    );
    let query = RegexQuery::new("xyz".to_string(), Field(0)).unwrap();
    let docs = drain(query.evaluate(&segment).unwrap());
    assert!(docs.is_empty());
}

#[test]
fn test_unbalanced_class_is_invalid_pattern() {
    match RegexQuery::new("jap[aon".to_string(), Field(0)) {
        Err(QueryError::InvalidPattern(text)) => assert_eq!(text, "jap[aon"),
        _ => panic!("expected InvalidPattern"),
    }
}

#[test]
fn test_unsupported_operator_is_invalid_pattern() {
    assert!(RegexQuery::new("ja*".to_string(), Field(0)).is_err());
    assert!(RegexQuery::new("ja+".to_string(), Field(0)).is_err());
    assert!(RegexQuery::new("ja?".to_string(), Field(0)).is_err());
    assert!(RegexQuery::new("a|b".to_string(), Field(0)).is_err());
}

#[test]
fn test_unbalanced_group_is_invalid_pattern() {
    assert!(RegexQuery::new("(ab".to_string(), Field(0)).is_err());
    assert!(RegexQuery::new("ab)".to_string(), Field(0)).is_err());
    assert!(RegexQuery::new("((a)".to_string(), Field(0)).is_err());
}

#[test]
fn test_grouped_pattern_matches() {
    let segment = segment_one_field(
        vec![b"abab".to_vec(), b"japan".to_vec()],
        vec![vec![4], vec![5]],
    );
    let query = RegexQuery::new("(ab){2}".to_string(), Field(0)).unwrap();
    let docs = drain(query.evaluate(&segment).unwrap());
    assert_eq!(docs, vec![4]);
    let query = RegexQuery::new("ja(pa)n".to_string(), Field(0)).unwrap();
    let docs = drain(query.evaluate(&segment).unwrap());
    assert_eq!(docs, vec![5]);
}

#[test]
fn test_bad_class_forms_are_invalid_pattern() {
    assert!(RegexQuery::new("[]".to_string(), Field(0)).is_err());
    assert!(RegexQuery::new("[^]".to_string(), Field(0)).is_err());
    assert!(RegexQuery::new("a[z-a]".to_string(), Field(0)).is_err());
    assert!(RegexQuery::new("a{".to_string(), Field(0)).is_err());
    assert!(RegexQuery::new("a{2".to_string(), Field(0)).is_err());
    assert!(RegexQuery::new("{2}".to_string(), Field(0)).is_err());
}

#[test]
fn test_missing_field_is_configuration_error() {
    let segment = segment_one_field(vec![b"japan".to_vec()], vec![vec![0]]);
    let query = RegexQuery::new("japan".to_string(), Field(7)).unwrap();
    match query.evaluate(&segment) {
        Err(QueryError::ConfigurationError(field)) => assert_eq!(field, Field(7)),
        _ => panic!("expected ConfigurationError"),
    }
}

#[test]
fn test_unindexed_field_is_configuration_error() {
    let mut segment = segment_one_field(vec![b"japan".to_vec()], vec![vec![0]]);
    segment.fields.insert(0, None);
    let query = RegexQuery::new("japan".to_string(), Field(0)).unwrap();
    assert!(query.evaluate(&segment).is_err());
}

#[test]
fn test_empty_pattern_matches_only_empty_term() {
    let segment = segment_one_field(
        vec![b"".to_vec(), b"a".to_vec()],
        vec![vec![0], vec![1]],
    );
    let query = RegexQuery::new(String::new(), Field(0)).unwrap();
    let docs = drain(query.evaluate(&segment).unwrap());
    assert_eq!(docs, vec![0]);
}

#[test]
fn test_compile_twice_same_language() {
    let q1 = RegexQuery::new("d[ai]{2}ry".to_string(), Field(0)).unwrap();
    let q2 = RegexQuery::new("d[ai]{2}ry".to_string(), Field(0)).unwrap();
    let samples: Vec<&[u8]> = vec![b"dairy", b"diary", b"daily", b"diiry", b"dry", b""];
    for sample in samples {
        assert_eq!(q1.acceptor.accepts(sample), q2.acceptor.accepts(sample));
    }
}

#[test]
fn test_cursor_seek_and_weight() {
    let segment = segment_one_field(vec![b"japan".to_vec()], vec![vec![2, 5, 9]]);
    let query = RegexQuery::new("japan".to_string(), Field(0)).unwrap();
    let mut cursor = query.evaluate(&segment).unwrap();
    assert_eq!(cursor.doc(), Some(2));
    cursor.seek(4);
    assert_eq!(cursor.doc(), Some(5));
    assert_eq!(cursor.weight(), 1);
    cursor.seek(9);
    assert_eq!(cursor.doc(), Some(9));
    cursor.advance();
    assert_eq!(cursor.doc(), None);
}
