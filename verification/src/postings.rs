//! Posting lists and their aggregation into one document stream.
//!
//! Each term ordinal names an ascending list of document identifiers.
//! The aggregator merges the lists of every matched term into a single
//! strictly ascending, duplicate-free stream, and serves it through a
//! forward-only cursor with a uniform match weight per document.

use vstd::prelude::*;

verus! {

/// The weight carried by every matching document: this query family
/// treats a match as present or absent, with no further differentiation.
pub const MATCH_WEIGHT: u64 = 1;

/// Strictly ascending: each identifier is greater than the one before.
pub open spec fn strictly_ascending(s: Seq<u32>) -> bool {
    forall|i: int| 0 <= i && i + 1 < s.len() ==> #[trigger] s[i] < s[i + 1]
}

/// Any earlier element of a strictly ascending list is smaller.
pub proof fn lemma_ascending_pairwise(s: Seq<u32>, i: int, j: int)
    requires
        strictly_ascending(s),
        0 <= i < j < s.len(),
    ensures
        s[i] < s[j],
    decreases j - i,
{
    if j > i + 1 {
        lemma_ascending_pairwise(s, i, j - 1);
    }
}

/// Membership in a list extended by one element.
pub proof fn lemma_contains_push(s: Seq<u32>, x: u32, d: u32)
    ensures
        s.push(x).contains(d) <==> (s.contains(d) || d == x),
{
    if s.contains(d) {
        let i = choose|i: int| 0 <= i < s.len() && s[i] == d;
        assert(s.push(x)[i] == d);
    }
    if d == x {
        assert(s.push(x)[s.len() as int] == d);
    }
    if s.push(x).contains(d) {
        let i = choose|i: int| 0 <= i < s.push(x).len() && s.push(x)[i] == d;
        if i < s.len() {
            assert(s[i] == d);
        }
    }
}

/// Merges two strictly ascending lists into their strictly ascending,
/// duplicate-free union.
pub fn merge_ascending(a: &Vec<u32>, b: &Vec<u32>) -> (r: Vec<u32>)
    requires
        strictly_ascending(a@),
        strictly_ascending(b@),
    ensures
        strictly_ascending(r@),
        forall|d: u32| r@.contains(d) <==> (a@.contains(d) || b@.contains(d)),
{
    let mut r: Vec<u32> = Vec::new();
    let mut i: usize = 0;
    let mut j: usize = 0;
    while i < a.len() || j < b.len()
        invariant
            strictly_ascending(a@),
            strictly_ascending(b@),
            i <= a@.len(),
            j <= b@.len(),
            strictly_ascending(r@),
            r@.len() > 0 && i < a@.len() ==> r@.last() < a@[i as int],
            r@.len() > 0 && j < b@.len() ==> r@.last() < b@[j as int],
            forall|d: u32| r@.contains(d) <==> (a@.take(i as int).contains(d) || b@.take(
                j as int,
            ).contains(d)),
        decreases a@.len() + b@.len() - i - j,
    {
        let take_a = if i < a.len() {
            if j < b.len() {
                a[i] <= b[j]
            } else {
                true
            }
        } else {
            false
        };
        let ghost r0 = r@;
        if take_a {
            let x = a[i];
            let both = j < b.len() && b[j] == x;
            r.push(x);
            proof {
                lemma_contains_push(r0, x, x);
                assert(a@.take(i + 1) =~= a@.take(i as int).push(x));
                if both {
                    assert(b@.take(j + 1) =~= b@.take(j as int).push(x));
                }
                assert forall|d: u32|
                    r@.contains(d) <==> (a@.take(i + 1).contains(d) || b@.take(
                        (if both {
                            j + 1
                        } else {
                            j as int
                        }),
                    ).contains(d)) by {
                    lemma_contains_push(r0, x, d);
                    lemma_contains_push(a@.take(i as int), x, d);
                    if both {
                        lemma_contains_push(b@.take(j as int), x, d);
                    }
                }
                assert forall|k: int| 0 <= k && k + 1 < r@.len() implies #[trigger] r@[k] < r@[k
                    + 1] by {
                    if k + 2 == r@.len() {
                        assert(r@[k] == r0.last());
                    } else {
                        assert(r@[k] == r0[k] && r@[k + 1] == r0[k + 1]);
                    }
                }
                if i + 1 < a@.len() {
                    assert(a@[i as int] < a@[i + 1]);
                }
                if both && j + 1 < b@.len() {
                    assert(b@[j as int] < b@[j + 1]);
                }
            }
            i += 1;
            if both {
                j += 1;
            }
        } else {
            let x = b[j];
            r.push(x);
            proof {
                assert(b@.take(j + 1) =~= b@.take(j as int).push(x));
                assert forall|d: u32|
                    r@.contains(d) <==> (a@.take(i as int).contains(d) || b@.take(j + 1).contains(
                        d,
                    )) by {
                    lemma_contains_push(r0, x, d);
                    lemma_contains_push(b@.take(j as int), x, d);
                }
                assert forall|k: int| 0 <= k && k + 1 < r@.len() implies #[trigger] r@[k] < r@[k
                    + 1] by {
                    if k + 2 == r@.len() {
                        assert(r@[k] == r0.last());
                    } else {
                        assert(r@[k] == r0[k] && r@[k + 1] == r0[k + 1]);
                    }
                }
                if j + 1 < b@.len() {
                    assert(b@[j as int] < b@[j + 1]);
                }
            }
            j += 1;
        }
    }
    proof {
        assert(a@.take(a@.len() as int) =~= a@);
        assert(b@.take(b@.len() as int) =~= b@);
    }
    r
}

/// The posting lists of one segment: list `t` holds, in strictly
/// ascending order, the documents containing the term of ordinal `t`.
pub struct PostingStore {
    pub lists: Vec<Vec<u32>>,
}

impl PostingStore {
    /// The lists as sequences of document identifiers.
    pub open spec fn spec_lists(self) -> Seq<Seq<u32>> {
        Seq::new(self.lists@.len() as nat, |i: int| self.lists@[i]@)
    }

    /// Every posting list is strictly ascending.
    pub open spec fn wf(self) -> bool {
        forall|l: int| 0 <= l < self.spec_lists().len() ==> strictly_ascending(
            #[trigger] self.spec_lists()[l],
        )
    }

    /// The number of posting lists held.
    pub fn num_lists(&self) -> (r: usize)
        ensures
            r == self.spec_lists().len(),
    {
        self.lists.len()
    }

    /// Builds a store from lists already in strictly ascending order; an
    /// out-of-order or duplicated document yields nothing.
    pub fn new(lists: Vec<Vec<u32>>) -> (r: Option<PostingStore>)
        ensures
            match r {
                Some(s) => {
                    &&& s.wf()
                    &&& s.lists@ == lists@
                },
                None => exists|l: int|
                    0 <= l < lists@.len() && !strictly_ascending(#[trigger] lists@[l]@),
            },
    {
        let s = PostingStore { lists };
        let mut l: usize = 0;
        while l < s.lists.len()
            invariant
                s.lists@ == lists@,
                l <= lists@.len(),
                forall|l2: int| 0 <= l2 < l ==> strictly_ascending(#[trigger] lists@[l2]@),
            decreases lists@.len() - l,
        {
            let row = &s.lists[l];
            let mut i: usize = 1;
            while i < row.len()
                invariant
                    1 <= i,
                    l < lists@.len(),
                    row@ == lists@[l as int]@,
                    forall|k: int| 0 <= k && k + 1 < i ==> #[trigger] row@[k] < row@[k + 1],
                decreases row@.len() - i,
            {
                if row[i - 1] >= row[i] {
                    proof {
                        let rv = lists@[l as int]@;
                        assert(rv == row@);
                        assert(0 <= i - 1 && (i - 1) + 1 < rv.len() && !(rv[i - 1] < rv[i - 1
                            + 1]));
                        assert(!strictly_ascending(rv));
                    }
                    return None;
                }
                i += 1;
            }
            proof {
                assert(strictly_ascending(lists@[l as int]@));
            }
            l += 1;
        }
        Some(s)
    }

    /// The ascending, duplicate-free union of the posting lists named by
    /// `ordinals`: a document containing several matched terms appears
    /// exactly once.
    pub fn union(&self, ordinals: &Vec<usize>) -> (r: Vec<u32>)
        requires
            self.wf(),
            forall|k: int| 0 <= k < ordinals@.len() ==> #[trigger] ordinals@[k]
                < self.spec_lists().len(),
        ensures
            strictly_ascending(r@),
            forall|d: u32|
                r@.contains(d) <==> exists|k: int|
                    0 <= k < ordinals@.len() && self.spec_lists()[#[trigger] ordinals@[k] as int].contains(
                        d,
                    ),
    {
        let mut r: Vec<u32> = Vec::new();
        let mut k: usize = 0;
        proof {
            assert forall|d: u32| !r@.contains(d) by {
                assert(r@.len() == 0);
            }
        }
        while k < ordinals.len()
            invariant
                self.wf(),
                k <= ordinals@.len(),
                forall|k2: int| 0 <= k2 < ordinals@.len() ==> #[trigger] ordinals@[k2]
                    < self.spec_lists().len(),
                strictly_ascending(r@),
                forall|d: u32|
                    r@.contains(d) <==> exists|k2: int|
                        0 <= k2 < k && self.spec_lists()[#[trigger] ordinals@[k2] as int].contains(
                            d,
                        ),
            decreases ordinals@.len() - k,
        {
            let ghost r0 = r@;
            let ord = ordinals[k];
            proof {
                assert(strictly_ascending(self.spec_lists()[ord as int]));
                assert(self.spec_lists()[ord as int] == self.lists@[ord as int]@);
            }
            r = merge_ascending(&r, &self.lists[ord]);
            proof {
                assert forall|d: u32|
                    r@.contains(d) <==> (exists|k2: int|
                        0 <= k2 < k + 1 && self.spec_lists()[#[trigger] ordinals@[k2] as int].contains(
                            d,
                        )) by {
                    if r@.contains(d) {
                        if r0.contains(d) {
                            let k2 = choose|k2: int|
                                0 <= k2 < k && self.spec_lists()[#[trigger] ordinals@[k2] as int].contains(
                                    d,
                                );
                            assert(0 <= k2 < k + 1 && self.spec_lists()[ordinals@[k2] as int].contains(
                                d,
                            ));
                        } else {
                            assert(self.spec_lists()[ordinals@[k as int] as int].contains(d));
                        }
                    }
                    if exists|k2: int|
                        0 <= k2 < k + 1 && self.spec_lists()[#[trigger] ordinals@[k2] as int].contains(
                            d,
                        ) {
                        let k2 = choose|k2: int|
                            0 <= k2 < k + 1 && self.spec_lists()[
                            #[trigger] ordinals@[k2] as int].contains(d);
                        if k2 < k {
                            assert(r0.contains(d));
                        } else {
                            assert(self.lists@[ord as int]@.contains(d));
                        }
                    }
                }
            }
            k += 1;
        }
        r
    }
}

/// The scored document stream of one segment: a forward-only cursor over
/// an ascending, duplicate-free list of matching documents, each carrying
/// the uniform match weight.
pub struct ScoredDocCursor {
    pub docs: Vec<u32>,
    pub pos: usize,
}

impl ScoredDocCursor {
    /// The stream is strictly ascending and the cursor within bounds.
    pub open spec fn wf(self) -> bool {
        &&& strictly_ascending(self.docs@)
        &&& self.pos <= self.docs@.len()
    }

    /// A cursor set before the first document of the stream.
    pub fn new(docs: Vec<u32>) -> (r: ScoredDocCursor)
        requires
            strictly_ascending(docs@),
        ensures
            r.wf(),
            r.docs@ == docs@,
            r.pos == 0,
    {
        ScoredDocCursor { docs, pos: 0 }
    }

    /// The current document, or nothing once the stream is exhausted.
    pub fn doc(&self) -> (r: Option<u32>)
        requires
            self.wf(),
        ensures
            match r {
                Some(d) => self.pos < self.docs@.len() && d == self.docs@[self.pos as int],
                None => self.pos == self.docs@.len(),
            },
    {
        if self.pos < self.docs.len() {
            Some(self.docs[self.pos])
        } else {
            None
        }
    }

    /// Moves to the next document, if any.
    pub fn advance(&mut self)
        requires
            old(self).wf(),
        ensures
            final (self).wf(),
            final (self).docs@ == old(self).docs@,
            final (self).pos == (if old(self).pos < old(self).docs@.len() {
                old(self).pos + 1
            } else {
                old(self).pos as int
            }),
    {
        if self.pos < self.docs.len() {
            self.pos = self.pos + 1;
        }
    }

    /// Moves forward to the first remaining document at or past `target`:
    /// documents skipped over are exactly those below it.
    pub fn seek(&mut self, target: u32)
        requires
            old(self).wf(),
        ensures
            final (self).wf(),
            final (self).docs@ == old(self).docs@,
            old(self).pos <= final (self).pos <= old(self).docs@.len(),
            forall|p: int| old(self).pos <= p < final (self).pos ==> #[trigger] old(self).docs@[p]
                < target,
            final (self).pos < old(self).docs@.len() ==> old(self).docs@[final (self).pos as int]
                >= target,
    {
        while self.pos < self.docs.len() && self.docs[self.pos] < target
            invariant
                self.wf(),
                self.docs@ == old(self).docs@,
                old(self).pos <= self.pos <= self.docs@.len(),
                forall|p: int| old(self).pos <= p < self.pos ==> #[trigger] self.docs@[p] < target,
            decreases self.docs@.len() - self.pos,
        {
            self.pos = self.pos + 1;
        }
    }

    /// The uniform weight of the current match.
    pub fn weight(&self) -> (r: u64)
        ensures
            r == MATCH_WEIGHT,
    {
        MATCH_WEIGHT
    }
}

} // verus!
