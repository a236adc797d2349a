//! The query facade: one field, one pattern, compiled once.
//!
//! Construction compiles the pattern immediately, so a malformed pattern
//! surfaces before any segment is touched. Evaluation against a segment
//! looks up the bound field's dictionary and postings, drains the
//! matched-term sequence, and returns the merged scored document stream;
//! a field that the segment does not index is a configuration error,
//! distinct from a pattern error.

use vstd::prelude::*;
use crate::acceptor::{Acceptor, compile, compiled_from};
use crate::matcher::{lemma_match_seq_contains, lemma_match_seq_in_range, match_seq, matched_terms};
use crate::pattern::{pattern_matches, pattern_valid};
use crate::postings::{PostingStore, ScoredDocCursor, lemma_ascending_pairwise};
use crate::dictionary::TermDictionary;

verus! {

/// A field of the schema, named by its dense identifier.
#[derive(Clone, Copy, PartialEq, Eq, Structural, Debug)]
pub struct Field(pub u32);

/// What can go wrong with a query: a pattern that does not compile,
/// carrying the offending text, or a field the segment does not index.
#[derive(Debug)]
pub enum QueryError {
    InvalidPattern(String),
    ConfigurationError(Field),
}

/// The UTF-8 bytes of a pattern text; terms are matched byte-wise.
pub open spec fn text_bytes(s: Seq<char>) -> Seq<u8> {
    vstd::utf8::encode_utf8(s)
}

/// One field's index data within one segment: its sorted term dictionary
/// and one posting list per term ordinal.
pub struct FieldIndex {
    pub dictionary: TermDictionary,
    pub postings: PostingStore,
}

impl FieldIndex {
    /// The dictionary is sorted and every ordinal has a posting list.
    pub open spec fn wf(self) -> bool {
        &&& self.dictionary.wf()
        &&& self.postings.wf()
        &&& self.dictionary.spec_terms().len() == self.postings.spec_lists().len()
    }
}

/// An immutable, independently searchable partition of the index: per
/// field, either that field's index data or nothing where the field is
/// not indexed as text.
pub struct Segment {
    pub fields: Vec<Option<FieldIndex>>,
}

impl Segment {
    /// Every indexed field is well formed.
    pub open spec fn wf(self) -> bool {
        forall|i: int| 0 <= i < self.fields@.len() ==> ((#[trigger] self.fields@[i]) matches Some(
            fi,
        ) ==> fi.wf())
    }

    /// The index data of a field, if the segment indexes it.
    pub open spec fn spec_field_index(self, f: Field) -> Option<FieldIndex> {
        if f.0 < self.fields@.len() {
            self.fields@[f.0 as int]
        } else {
            None
        }
    }
}

/// Whether document `d` contains at least one term of the field's
/// dictionary that the acceptor accepts.
pub open spec fn doc_matches(a: Acceptor, fi: FieldIndex, d: u32) -> bool {
    exists|t: int|
        0 <= t < fi.dictionary.spec_terms().len() && a.spec_accepts(
            #[trigger] fi.dictionary.spec_terms()[t],
        ) && fi.postings.spec_lists()[t].contains(d)
}

/// What evaluation promises of its stream: a fresh, strictly ascending
/// cursor holding exactly the documents with a matching term.
pub open spec fn scored_stream_correct(c: ScoredDocCursor, a: Acceptor, fi: FieldIndex) -> bool {
    &&& c.wf()
    &&& c.pos == 0
    &&& forall|d: u32| #[trigger] c.docs@.contains(d) <==> doc_matches(a, fi, d)
}

/// A query matching every document that contains a term accepted by a
/// pattern, within one bound field.
pub struct RegexQuery {
    pub regex_pattern: String,
    pub field: Field,
    pub acceptor: Acceptor,
}

impl RegexQuery {
    /// The held acceptor is the compilation of the held pattern.
    pub open spec fn wf(self) -> bool {
        &&& self.acceptor.wf()
        &&& compiled_from(self.acceptor, text_bytes(self.regex_pattern@))
    }

    /// Builds a query over `field` from a pattern text, compiling the
    /// pattern at once: a malformed pattern is rejected here, before any
    /// segment is touched.
    pub fn new(regex_pattern: String, field: Field) -> (r: Result<RegexQuery, QueryError>)
        ensures
            r is Ok <==> pattern_valid(text_bytes(regex_pattern@)),
            r matches Ok(q) ==> {
                &&& q.wf()
                &&& q.field == field
                &&& q.regex_pattern@ == regex_pattern@
                &&& forall|s: Seq<u8>| #[trigger]
                    q.acceptor.spec_accepts(s) == pattern_matches(text_bytes(regex_pattern@), s)
            },
            r matches Err(e) ==> e matches QueryError::InvalidPattern(t) && t@ == regex_pattern@,
    {
        match compile(regex_pattern.as_str().as_bytes()) {
            Some(acceptor) => Ok(RegexQuery { regex_pattern, field, acceptor }),
            None => Err(QueryError::InvalidPattern(regex_pattern)),
        }
    }

    /// Evaluates the query against one segment: the scored document
    /// stream of the bound field, or a configuration error where the
    /// segment does not index that field.
    pub fn evaluate(&self, segment: &Segment) -> (r: Result<ScoredDocCursor, QueryError>)
        requires
            self.wf(),
            segment.wf(),
        ensures
            r is Ok <==> segment.spec_field_index(self.field) is Some,
            r matches Ok(c) ==> scored_stream_correct(
                c,
                self.acceptor,
                segment.spec_field_index(self.field).unwrap(),
            ),
            r matches Err(e) ==> e == QueryError::ConfigurationError(self.field),
    {
        let idx = self.field.0 as usize;
        if idx >= segment.fields.len() {
            return Err(QueryError::ConfigurationError(self.field));
        }
        match &segment.fields[idx] {
            None => Err(QueryError::ConfigurationError(self.field)),
            Some(fi) => {
                proof {
                    assert(segment.fields@[idx as int] matches Some(x) && x == *fi);
                    assert(fi.wf());
                }
                let ghost n = fi.dictionary.spec_terms().len() as int;
                let ghost ms = match_seq(fi.dictionary, self.acceptor, 0, n);
                let pairs = matched_terms(&fi.dictionary, &self.acceptor);
                let mut ordinals: Vec<usize> = Vec::new();
                let mut k: usize = 0;
                while k < pairs.len()
                    invariant
                        k <= pairs@.len(),
                        ordinals@.len() == k,
                        forall|k2: int| 0 <= k2 < k ==> #[trigger] ordinals@[k2] == pairs@[k2].1,
                    decreases pairs@.len() - k,
                {
                    let ord = pairs[k].1;
                    ordinals.push(ord);
                    k += 1;
                }
                proof {
                    assert forall|k2: int| 0 <= k2 < ordinals@.len() implies #[trigger] ordinals@[k2]
                        < fi.postings.spec_lists().len() by {
                        assert(ordinals@[k2] as int == ms[k2]);
                        lemma_match_seq_in_range(fi.dictionary, self.acceptor, 0, n, k2);
                    }
                }
                let docs = fi.postings.union(&ordinals);
                proof {
                    assert forall|d: u32| #[trigger]
                        docs@.contains(d) <==> doc_matches(self.acceptor, *fi, d) by {
                        if docs@.contains(d) {
                            let k2 = choose|k2: int|
                                0 <= k2 < ordinals@.len()
                                    && fi.postings.spec_lists()[#[trigger] ordinals@[k2] as int].contains(
                                    d,
                                );
                            let t = ordinals@[k2] as int;
                            assert(t == ms[k2]);
                            lemma_match_seq_in_range(fi.dictionary, self.acceptor, 0, n, k2);
                            assert(0 <= t < n && self.acceptor.spec_accepts(
                                fi.dictionary.spec_terms()[t],
                            ) && fi.postings.spec_lists()[t].contains(d));
                        }
                        if doc_matches(self.acceptor, *fi, d) {
                            let t = choose|t: int|
                                0 <= t < fi.dictionary.spec_terms().len()
                                    && self.acceptor.spec_accepts(
                                    #[trigger] fi.dictionary.spec_terms()[t],
                                ) && fi.postings.spec_lists()[t].contains(d);
                            lemma_match_seq_contains(fi.dictionary, self.acceptor, 0, n, t);
                            assert(ms.contains(t));
                            let k2 = choose|k2: int| 0 <= k2 < ms.len() && ms[k2] == t;
                            assert(ordinals@[k2] as int == ms[k2]);
                            assert(fi.postings.spec_lists()[ordinals@[k2] as int].contains(d));
                        }
                    }
                }
                Ok(ScoredDocCursor::new(docs))
            },
        }
    }
}

/// A pattern that matches no dictionary term yields an empty scored
/// document stream, not an error.
pub proof fn lemma_no_match_empty_stream(c: ScoredDocCursor, a: Acceptor, fi: FieldIndex)
    requires
        scored_stream_correct(c, a, fi),
        forall|t: int| 0 <= t < fi.dictionary.spec_terms().len() ==> !a.spec_accepts(
            #[trigger] fi.dictionary.spec_terms()[t],
        ),
    ensures
        c.docs@ == Seq::<u32>::empty(),
{
    if c.docs@.len() > 0 {
        let d = c.docs@[0];
        assert(c.docs@.contains(d));
        assert(doc_matches(a, fi, d));
        let t = choose|t: int|
            0 <= t < fi.dictionary.spec_terms().len() && a.spec_accepts(
                #[trigger] fi.dictionary.spec_terms()[t],
            ) && fi.postings.spec_lists()[t].contains(d);
        assert(false);
    }
    assert(c.docs@ =~= Seq::<u32>::empty());
}

/// A document containing two distinct terms that both match appears in
/// the stream exactly once.
pub proof fn lemma_dedup_single_entry(
    c: ScoredDocCursor,
    a: Acceptor,
    fi: FieldIndex,
    t1: int,
    t2: int,
    d: u32,
)
    requires
        scored_stream_correct(c, a, fi),
        0 <= t1 < fi.dictionary.spec_terms().len(),
        0 <= t2 < fi.dictionary.spec_terms().len(),
        t1 != t2,
        a.spec_accepts(fi.dictionary.spec_terms()[t1]),
        a.spec_accepts(fi.dictionary.spec_terms()[t2]),
        fi.postings.spec_lists()[t1].contains(d),
        fi.postings.spec_lists()[t2].contains(d),
    ensures
        exists|p: int| 0 <= p < c.docs@.len() && c.docs@[p] == d,
        forall|p1: int, p2: int|
            0 <= p1 < c.docs@.len() && 0 <= p2 < c.docs@.len() && #[trigger] c.docs@[p1] == d
                && #[trigger] c.docs@[p2] == d ==> p1 == p2,
{
    assert(doc_matches(a, fi, d));
    assert(c.docs@.contains(d));
    assert forall|p1: int, p2: int|
        0 <= p1 < c.docs@.len() && 0 <= p2 < c.docs@.len() && #[trigger] c.docs@[p1] == d
            && #[trigger] c.docs@[p2] == d implies p1 == p2 by {
        if p1 < p2 {
            lemma_ascending_pairwise(c.docs@, p1, p2);
        }
        if p2 < p1 {
            lemma_ascending_pairwise(c.docs@, p2, p1);
        }
    }
}

/// The scored document stream is strictly ascending, so no identifier
/// repeats.
pub proof fn lemma_stream_ascending_distinct(c: ScoredDocCursor, a: Acceptor, fi: FieldIndex)
    requires
        scored_stream_correct(c, a, fi),
    ensures
        forall|p1: int, p2: int|
            0 <= p1 < p2 < c.docs@.len() ==> #[trigger] c.docs@[p1] < #[trigger] c.docs@[p2],
        forall|p1: int, p2: int|
            0 <= p1 < p2 < c.docs@.len() ==> #[trigger] c.docs@[p1] != #[trigger] c.docs@[p2],
{
    assert forall|p1: int, p2: int| 0 <= p1 < p2 < c.docs@.len() implies #[trigger] c.docs@[p1]
        < #[trigger] c.docs@[p2] by {
        lemma_ascending_pairwise(c.docs@, p1, p2);
    }
}

} // verus!
