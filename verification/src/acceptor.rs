//! The compiled acceptor: a deterministic finite-state machine over bytes.
//!
//! States are indices into a flat array of transition tables: one row of
//! 256 entries per state, each entry naming the successor state for that
//! byte, or nothing. A subset of states accepts. The acceptor is
//! immutable once built and is shared read-only by every traversal that
//! uses it. The compiler emits the chain-shaped instance of this family:
//! one state per pattern item, stepping forward on the item's bytes.

use vstd::prelude::*;
use crate::pattern::{
    ByteClass, class_has, class_wf, classes_of, items_match, parse_pattern, pattern_matches,
    pattern_valid, spec_pattern_items,
};

verus! {

/// A deterministic acceptor over byte strings: a transition table with
/// one 256-entry row per state, and one accepting flag per state.
pub struct Acceptor {
    pub trans: Vec<Vec<Option<usize>>>,
    pub accept: Vec<bool>,
}

impl Acceptor {
    /// The number of states; the start state is state 0.
    pub open spec fn num_states(self) -> int {
        self.trans@.len() as int
    }

    /// There is a start state, every state has a full row, every flag
    /// belongs to a state, and every named successor is a state.
    pub open spec fn wf(self) -> bool {
        &&& self.trans@.len() >= 1
        &&& self.accept@.len() == self.trans@.len()
        &&& forall|k: int| 0 <= k < self.trans@.len() ==> (#[trigger] self.trans@[k])@.len() == 256
        &&& forall|k: int, b: int|
            0 <= k < self.trans@.len() && 0 <= b < 256 ==> ((#[trigger] self.trans@[k]@[b]) matches
                Some(t) ==> t < self.trans@.len())
    }

    /// Whether `state` accepts.
    pub open spec fn accepting(self, state: int) -> bool {
        0 <= state < self.accept@.len() && self.accept@[state]
    }

    /// The deterministic transition function: at most one successor per
    /// state and byte.
    pub open spec fn spec_step(self, state: int, b: u8) -> Option<int> {
        if 0 <= state < self.trans@.len() {
            match self.trans@[state]@[b as int] {
                Some(t) => Some(t as int),
                None => None,
            }
        } else {
            None
        }
    }

    /// The state reached from `state` after consuming all of `s`, if every
    /// byte has a transition.
    pub open spec fn run_from(self, state: int, s: Seq<u8>) -> Option<int>
        decreases s.len(),
    {
        if s.len() == 0 {
            Some(state)
        } else {
            match self.spec_step(state, s[0]) {
                Some(t) => self.run_from(t, s.drop_first()),
                None => None,
            }
        }
    }

    /// Whether the acceptor accepts the byte string `s`.
    pub open spec fn spec_accepts(self, s: Seq<u8>) -> bool {
        match self.run_from(0, s) {
            Some(st) => self.accepting(st),
            None => false,
        }
    }

    /// Splitting a run: consuming `s1 + s2` is consuming `s1`, then `s2`.
    pub proof fn lemma_run_concat(self, state: int, s1: Seq<u8>, s2: Seq<u8>)
        ensures
            self.run_from(state, s1 + s2) == (match self.run_from(state, s1) {
                Some(mid) => self.run_from(mid, s2),
                None => None::<int>,
            }),
        decreases s1.len(),
    {
        if s1.len() == 0 {
            assert(s1 + s2 =~= s2);
        } else {
            assert((s1 + s2)[0] == s1[0]);
            match self.spec_step(state, s1[0]) {
                Some(t) => {
                    assert((s1 + s2).drop_first() =~= s1.drop_first() + s2);
                    self.lemma_run_concat(t, s1.drop_first(), s2);
                },
                None => {
                    assert((s1 + s2).len() != 0);
                },
            }
        }
    }

    /// Extending a run by one byte at the end.
    pub proof fn lemma_run_snoc(self, state: int, s: Seq<u8>, b: u8)
        ensures
            self.run_from(state, s.push(b)) == (match self.run_from(state, s) {
                Some(mid) => self.spec_step(mid, b),
                None => None::<int>,
            }),
    {
        assert(s.push(b) =~= s + seq![b]);
        self.lemma_run_concat(state, s, seq![b]);
        match self.run_from(state, s) {
            Some(mid) => {
                assert(seq![b].drop_first() =~= Seq::<u8>::empty());
                assert(seq![b][0] == b);
                match self.spec_step(mid, b) {
                    Some(t) => {
                        assert(self.run_from(t, Seq::<u8>::empty()) == Some(t));
                        assert(self.run_from(mid, seq![b]) == Some(t));
                    },
                    None => {
                        assert(self.run_from(mid, seq![b]) is None);
                    },
                }
            },
            None => {},
        }
    }

    /// Whether `state` accepts.
    pub fn is_accepting(&self, state: usize) -> (r: bool)
        requires
            self.wf(),
        ensures
            r == self.accepting(state as int),
    {
        state < self.accept.len() && self.accept[state]
    }

    /// The deterministic transition from `state` on byte `b`, if any.
    pub fn step(&self, state: usize, b: u8) -> (r: Option<usize>)
        requires
            self.wf(),
        ensures
            match r {
                Some(t) => self.spec_step(state as int, b) == Some(t as int),
                None => self.spec_step(state as int, b) is None,
            },
    {
        if state < self.trans.len() {
            self.trans[state][b as usize]
        } else {
            None
        }
    }

    /// Runs the acceptor over a whole byte string: the brute-force
    /// simulation of one term against the pattern.
    pub fn accepts(&self, t: &[u8]) -> (r: bool)
        requires
            self.wf(),
        ensures
            r == self.spec_accepts(t@),
    {
        let mut state: usize = 0;
        let mut k: usize = 0;
        proof {
            assert(t@.skip(0) =~= t@);
        }
        while k < t.len()
            invariant
                self.wf(),
                k <= t@.len(),
                self.run_from(0, t@) == self.run_from(state as int, t@.skip(k as int)),
            decreases t@.len() - k,
        {
            let ghost suffix = t@.skip(k as int);
            match self.step(state, t[k]) {
                Some(next) => {
                    proof {
                        assert(suffix[0] == t@[k as int]);
                        assert(suffix.drop_first() =~= t@.skip(k as int + 1));
                    }
                    state = next;
                },
                None => {
                    proof {
                        assert(suffix[0] == t@[k as int]);
                        assert(self.run_from(state as int, suffix) is None);
                    }
                    return false;
                },
            }
            k += 1;
        }
        proof {
            assert(t@.skip(t@.len() as int) =~= Seq::<u8>::empty());
        }
        self.is_accepting(state)
    }
}

/// Whether the acceptor is the chain automaton of the item classes:
/// state `k` steps to `k + 1` exactly on the bytes of item `k`, and the
/// one state past the last item is the one that accepts.
pub open spec fn chain_shape(a: Acceptor, items: Seq<Seq<bool>>) -> bool {
    &&& a.num_states() == items.len() + 1
    &&& forall|k: int, b: u8|
        0 <= k < items.len() ==> #[trigger] a.spec_step(k, b) == (if class_has(items[k], b) {
            Some(k + 1)
        } else {
            None::<int>
        })
    &&& forall|b: u8| #[trigger] a.spec_step(items.len() as int, b) is None
    &&& forall|k: int| 0 <= k <= items.len() ==> (#[trigger] a.accepting(k) <==> k == items.len())
}

/// The language of a chain acceptor is exactly the item-by-item language
/// of its classes: a run from `state` consumes `s` and ends accepting
/// exactly when `s` steps through the remaining items one byte each.
pub proof fn lemma_chain_language(a: Acceptor, items: Seq<Seq<bool>>, state: int, s: Seq<u8>)
    requires
        chain_shape(a, items),
        0 <= state <= items.len(),
    ensures
        (a.run_from(state, s) matches Some(e) && a.accepting(e)) <==> (state + s.len()
            == items.len() && forall|j: int|
            0 <= j < s.len() ==> class_has(items[state + j], #[trigger] s[j])),
    decreases s.len(),
{
    if s.len() == 0 {
    } else {
        match a.spec_step(state, s[0]) {
            Some(t) => {
                assert(state < items.len() && t == state + 1);
                lemma_chain_language(a, items, t, s.drop_first());
                let rest = s.drop_first();
                assert forall|j: int| 0 <= j < rest.len() implies rest[j] == s[j + 1] by {}
                if t + rest.len() == items.len() && forall|j: int|
                    0 <= j < rest.len() ==> class_has(items[t + j], #[trigger] rest[j]) {
                    assert forall|j: int| 0 <= j < s.len() implies class_has(
                        items[state + j],
                        #[trigger] s[j],
                    ) by {
                        if j > 0 {
                            assert(rest[j - 1] == s[j]);
                            assert(class_has(items[t + (j - 1)], rest[j - 1]));
                        }
                    }
                }
                if state + s.len() == items.len() && forall|j: int|
                    0 <= j < s.len() ==> class_has(items[state + j], #[trigger] s[j]) {
                    assert forall|j: int| 0 <= j < rest.len() implies class_has(
                        items[t + j],
                        #[trigger] rest[j],
                    ) by {
                        assert(rest[j] == s[j + 1]);
                        assert(class_has(items[state + (j + 1)], s[j + 1]));
                    }
                }
            },
            None => {
                if state + s.len() == items.len() && forall|j: int|
                    0 <= j < s.len() ==> class_has(items[state + j], #[trigger] s[j]) {
                    assert(class_has(items[state], s[0]));
                    assert(state < items.len());
                    assert(a.spec_step(state, s[0]) is Some);
                }
            },
        }
    }
}

/// One transition row: successor `next` on every byte of the class,
/// nothing elsewhere.
fn build_row(cls: &ByteClass, next: usize) -> (row: Vec<Option<usize>>)
    requires
        class_wf(cls@),
    ensures
        row@.len() == 256,
        forall|b: int|
            0 <= b < 256 ==> row@[b] == (if cls@[b] {
                Some(next)
            } else {
                None::<usize>
            }),
{
    let mut row: Vec<Option<usize>> = Vec::new();
    let mut b: usize = 0;
    while b < 256
        invariant
            b <= 256,
            class_wf(cls@),
            row@.len() == b,
            forall|b2: int|
                0 <= b2 < b ==> row@[b2] == (if cls@[b2] {
                    Some(next)
                } else {
                    None::<usize>
                }),
        decreases 256 - b,
    {
        if cls.bits[b] {
            row.push(Some(next));
        } else {
            row.push(None);
        }
        b += 1;
    }
    row
}

/// One row with no transition at all, for a final state.
fn build_dead_row() -> (row: Vec<Option<usize>>)
    ensures
        row@.len() == 256,
        forall|b: int| 0 <= b < 256 ==> row@[b] is None,
{
    let mut row: Vec<Option<usize>> = Vec::new();
    let mut b: usize = 0;
    while b < 256
        invariant
            b <= 256,
            row@.len() == b,
            forall|b2: int| 0 <= b2 < b ==> row@[b2] is None,
        decreases 256 - b,
    {
        row.push(None);
        b += 1;
    }
    row
}

/// Builds the chain acceptor of an item list: one state per item plus
/// one accepting state past the last.
fn build_chain(items: &Vec<ByteClass>) -> (a: Acceptor)
    requires
        forall|j: int| 0 <= j < items@.len() ==> class_wf(#[trigger] items@[j]@),
    ensures
        a.wf(),
        chain_shape(a, classes_of(items@)),
{
    let n = items.len();
    let mut trans: Vec<Vec<Option<usize>>> = Vec::new();
    let mut k: usize = 0;
    while k < n
        invariant
            k <= n,
            n == items@.len(),
            forall|j: int| 0 <= j < items@.len() ==> class_wf(#[trigger] items@[j]@),
            trans@.len() == k,
            forall|k2: int| 0 <= k2 < k ==> (#[trigger] trans@[k2])@.len() == 256,
            forall|k2: int, b: int|
                0 <= k2 < k && 0 <= b < 256 ==> #[trigger] trans@[k2]@[b] == (if items@[k2]@[b] {
                    Some((k2 + 1) as usize)
                } else {
                    None::<usize>
                }),
        decreases n - k,
    {
        let row = build_row(&items[k], k + 1);
        trans.push(row);
        k += 1;
    }
    trans.push(build_dead_row());
    let mut accept: Vec<bool> = Vec::new();
    let mut q: usize = 0;
    while q < n
        invariant
            q <= n,
            accept@.len() == q,
            forall|k2: int| 0 <= k2 < q ==> !(#[trigger] accept@[k2]),
        decreases n - q,
    {
        accept.push(false);
        q += 1;
    }
    accept.push(true);
    let a = Acceptor { trans, accept };
    proof {
        let cs = classes_of(items@);
        assert forall|k2: int, b: u8| 0 <= k2 < cs.len() implies #[trigger] a.spec_step(k2, b) == (
        if class_has(cs[k2], b) {
            Some(k2 + 1)
        } else {
            None::<int>
        }) by {
            assert(a.trans@[k2]@[b as int] == (if items@[k2]@[b as int] {
                Some((k2 + 1) as usize)
            } else {
                None::<usize>
            }));
        }
        assert forall|b: u8| #[trigger] a.spec_step(cs.len() as int, b) is None by {
            assert(a.trans@[cs.len() as int]@[b as int] is None);
        }
    }
    a
}

/// Whether `a` is the acceptor that compiling the pattern text `p` yields.
pub open spec fn compiled_from(a: Acceptor, p: Seq<u8>) -> bool {
    &&& a.wf()
    &&& pattern_valid(p)
    &&& chain_shape(a, spec_pattern_items(p).unwrap())
}

/// Compiles a pattern into its acceptor; a malformed pattern yields
/// nothing, never a partially built acceptor.
pub fn compile(pattern: &[u8]) -> (r: Option<Acceptor>)
    ensures
        r is Some <==> pattern_valid(pattern@),
        match r {
            Some(a) => {
                &&& compiled_from(a, pattern@)
                &&& forall|s: Seq<u8>| #[trigger] a.spec_accepts(s) == pattern_matches(pattern@, s)
            },
            None => !pattern_valid(pattern@),
        },
{
    match parse_pattern(pattern) {
        Some(items) => {
            let a = build_chain(&items);
            proof {
                let cs = classes_of(items@);
                assert forall|s: Seq<u8>| #[trigger] a.spec_accepts(s) == pattern_matches(
                    pattern@,
                    s,
                ) by {
                    lemma_chain_language(a, cs, 0, s);
                    assert(a.spec_accepts(s) == items_match(cs, s));
                }
            }
            Some(a)
        },
        None => None,
    }
}

/// Compiling is deterministic: two acceptors compiled from the same
/// pattern text accept exactly the same language.
pub proof fn lemma_compile_deterministic(p: Seq<u8>, a1: Acceptor, a2: Acceptor)
    requires
        compiled_from(a1, p),
        compiled_from(a2, p),
    ensures
        forall|s: Seq<u8>| #[trigger] a1.spec_accepts(s) == #[trigger] a2.spec_accepts(s),
{
    let items = spec_pattern_items(p).unwrap();
    assert forall|s: Seq<u8>| #[trigger] a1.spec_accepts(s) == #[trigger] a2.spec_accepts(s) by {
        lemma_chain_language(a1, items, 0, s);
        lemma_chain_language(a2, items, 0, s);
        assert(a1.spec_accepts(s) == items_match(items, s));
        assert(a2.spec_accepts(s) == items_match(items, s));
    }
}

} // verus!
