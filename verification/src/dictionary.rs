//! The sorted term dictionary of one segment, for one field.
//!
//! Terms are byte strings held in strictly ascending lexicographic order;
//! a term's ordinal is its position, and names its posting list within
//! the segment. The dictionary is read-only: the traversal interface
//! exposes, from any prefix position, the outgoing byte transitions and
//! whether the position is a complete term.

use vstd::prelude::*;

verus! {

/// Strict lexicographic order on byte strings: the usual dictionary
/// order, a proper prefix coming before every extension of it.
pub open spec fn lex_lt(a: Seq<u8>, b: Seq<u8>) -> bool
    decreases a.len(),
{
    if b.len() == 0 {
        false
    } else if a.len() == 0 {
        true
    } else if a[0] < b[0] {
        true
    } else if a[0] > b[0] {
        false
    } else {
        lex_lt(a.drop_first(), b.drop_first())
    }
}

/// Lexicographic order is irreflexive.
pub proof fn lemma_lex_irrefl(a: Seq<u8>)
    ensures
        !lex_lt(a, a),
    decreases a.len(),
{
    if a.len() > 0 {
        lemma_lex_irrefl(a.drop_first());
    }
}

/// Lexicographic order is transitive.
pub proof fn lemma_lex_trans(a: Seq<u8>, b: Seq<u8>, c: Seq<u8>)
    requires
        lex_lt(a, b),
        lex_lt(b, c),
    ensures
        lex_lt(a, c),
    decreases a.len(),
{
    if a.len() > 0 && b.len() > 0 && c.len() > 0 && a[0] == b[0] && b[0] == c[0] {
        lemma_lex_trans(a.drop_first(), b.drop_first(), c.drop_first());
    }
}

/// A proper prefix precedes the string it is cut from.
pub proof fn lemma_lex_prefix_lt(t: Seq<u8>, d: int)
    requires
        0 <= d < t.len(),
    ensures
        lex_lt(t.take(d), t),
    decreases d,
{
    if d == 0 {
    } else {
        lemma_lex_prefix_lt(t.drop_first(), d - 1);
        assert(t.take(d).drop_first() =~= t.drop_first().take(d - 1));
    }
}

/// Two strings that agree on a common prefix compare as their remainders.
pub proof fn lemma_lex_common_prefix(a: Seq<u8>, b: Seq<u8>, d: int)
    requires
        0 <= d <= a.len(),
        0 <= d <= b.len(),
        a.take(d) == b.take(d),
    ensures
        lex_lt(a, b) == lex_lt(a.skip(d), b.skip(d)),
    decreases d,
{
    if d == 0 {
        assert(a.skip(0) =~= a);
        assert(b.skip(0) =~= b);
    } else {
        assert(a.take(d)[0] == a[0]);
        assert(b.take(d)[0] == b[0]);
        assert(a[0] == b[0]);
        assert(a.drop_first().take(d - 1) =~= a.take(d).drop_first());
        assert(b.drop_first().take(d - 1) =~= b.take(d).drop_first());
        lemma_lex_common_prefix(a.drop_first(), b.drop_first(), d - 1);
        assert(a.drop_first().skip(d - 1) =~= a.skip(d));
        assert(b.drop_first().skip(d - 1) =~= b.skip(d));
    }
}

/// Whether a list of terms is in strictly ascending lexicographic order.
pub open spec fn terms_sorted(terms: Seq<Vec<u8>>) -> bool {
    forall|i: int| 0 <= i && i + 1 < terms.len() ==> lex_lt(#[trigger] terms[i]@, terms[i + 1]@)
}

/// The dictionary: terms in strictly ascending lexicographic order.
pub struct TermDictionary {
    pub terms: Vec<Vec<u8>>,
}

impl TermDictionary {
    /// The terms as byte strings, in storage order.
    pub open spec fn spec_terms(self) -> Seq<Seq<u8>> {
        Seq::new(self.terms@.len() as nat, |i: int| self.terms@[i]@)
    }

    /// Adjacent terms are strictly ascending.
    pub open spec fn wf(self) -> bool {
        terms_sorted(self.terms@)
    }

    /// Any earlier term precedes any later one.
    pub proof fn lemma_sorted_pair(self, i: int, j: int)
        requires
            self.wf(),
            0 <= i < j < self.spec_terms().len(),
        ensures
            lex_lt(self.spec_terms()[i], self.spec_terms()[j]),
        decreases j - i,
    {
        if j == i + 1 {
        } else {
            self.lemma_sorted_pair(i, j - 1);
            assert(lex_lt(self.spec_terms()[j - 1], self.spec_terms()[j]));
            lemma_lex_trans(self.spec_terms()[i], self.spec_terms()[j - 1], self.spec_terms()[j]);
        }
    }

    /// The number of terms.
    pub fn num_terms(&self) -> (r: usize)
        ensures
            r == self.spec_terms().len(),
    {
        self.terms.len()
    }

    /// The term bytes stored under an ordinal.
    pub fn term(&self, ordinal: usize) -> (r: &Vec<u8>)
        requires
            ordinal < self.spec_terms().len(),
        ensures
            r@ == self.spec_terms()[ordinal as int],
    {
        &self.terms[ordinal]
    }

    /// Builds a dictionary from terms already in strictly ascending order;
    /// an out-of-order or duplicated term yields nothing.
    pub fn new(terms: Vec<Vec<u8>>) -> (r: Option<TermDictionary>)
        ensures
            match r {
                Some(d) => {
                    &&& d.wf()
                    &&& d.terms@ == terms@
                },
                None => !terms_sorted(terms@),
            },
    {
        let d = TermDictionary { terms };
        let n = d.terms.len();
        if n == 0 {
            return Some(d);
        }
        let mut i: usize = 0;
        while i + 1 < n
            invariant
                n == d.terms@.len(),
                d.terms@ == terms@,
                i < n,
                forall|k: int| 0 <= k && k + 1 <= i ==> lex_lt(
                    #[trigger] d.terms@[k]@,
                    d.terms@[k + 1]@,
                ),
            decreases n - i,
        {
            if !lex_lt_bytes(&d.terms[i], &d.terms[i + 1]) {
                proof {
                    assert(d.terms@ == terms@);
                    assert(!lex_lt(terms@[i as int]@, terms@[i as int + 1]@));
                }
                return None;
            }
            i += 1;
        }
        Some(d)
    }
}

/// Compares two byte strings in lexicographic order.
pub fn lex_lt_bytes(a: &Vec<u8>, b: &Vec<u8>) -> (r: bool)
    ensures
        r == lex_lt(a@, b@),
{
    let mut k: usize = 0;
    proof {
        assert(a@.skip(0) =~= a@);
        assert(b@.skip(0) =~= b@);
    }
    loop
        invariant
            k <= a@.len(),
            k <= b@.len(),
            a@.take(k as int) == b@.take(k as int),
            lex_lt(a@, b@) == lex_lt(a@.skip(k as int), b@.skip(k as int)),
        decreases a@.len() - k,
    {
        if k == a.len() {
            proof {
                assert(a@.skip(k as int) =~= Seq::<u8>::empty());
            }
            return k < b.len();
        }
        if k == b.len() {
            proof {
                assert(b@.skip(k as int) =~= Seq::<u8>::empty());
            }
            return false;
        }
        let ca = a[k];
        let cb = b[k];
        proof {
            assert(a@.skip(k as int)[0] == a@[k as int]);
            assert(b@.skip(k as int)[0] == b@[k as int]);
        }
        if ca < cb {
            return true;
        }
        if ca > cb {
            return false;
        }
        proof {
            assert(a@.take(k + 1) =~= a@.take(k as int).push(ca));
            assert(b@.take(k + 1) =~= b@.take(k as int).push(cb));
            lemma_lex_common_prefix(a@, b@, k + 1);
        }
        k += 1;
    }
}

} // verus!
