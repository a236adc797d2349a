//! Co-traversal of the acceptor and the term dictionary.
//!
//! The matcher walks the sorted dictionary and the acceptor in lock-step:
//! a frame pairs a run of terms sharing a byte prefix with the acceptor
//! state reached on that prefix. Extending the prefix by a byte without a
//! transition prunes the whole run unvisited; a complete term paired with
//! the accepting state is emitted. Matches come out lazily, one per call,
//! in ascending dictionary order.

use vstd::prelude::*;
use crate::acceptor::Acceptor;
use crate::dictionary::{
    TermDictionary, lemma_lex_irrefl, lemma_lex_prefix_lt, lemma_lex_trans, lex_lt,
};

verus! {

/// The ordinals in `lo .. hi` whose terms the acceptor accepts, in
/// ascending order: the brute-force reference for the co-traversal.
pub open spec fn match_seq(dict: TermDictionary, a: Acceptor, lo: int, hi: int) -> Seq<int>
    decreases hi - lo,
{
    if lo >= hi {
        Seq::empty()
    } else if a.spec_accepts(dict.spec_terms()[lo]) {
        seq![lo] + match_seq(dict, a, lo + 1, hi)
    } else {
        match_seq(dict, a, lo + 1, hi)
    }
}

/// Matches over a range split at `mid` concatenate.
pub proof fn lemma_match_seq_split(dict: TermDictionary, a: Acceptor, lo: int, mid: int, hi: int)
    requires
        lo <= mid <= hi,
    ensures
        match_seq(dict, a, lo, hi) == match_seq(dict, a, lo, mid) + match_seq(dict, a, mid, hi),
    decreases mid - lo,
{
    if lo == mid {
        assert(Seq::<int>::empty() + match_seq(dict, a, mid, hi) =~= match_seq(dict, a, mid, hi));
    } else {
        lemma_match_seq_split(dict, a, lo + 1, mid, hi);
        if a.spec_accepts(dict.spec_terms()[lo]) {
            assert(seq![lo] + (match_seq(dict, a, lo + 1, mid) + match_seq(dict, a, mid, hi)) =~= (
            seq![lo] + match_seq(dict, a, lo + 1, mid)) + match_seq(dict, a, mid, hi));
        }
    }
}

/// A range none of whose terms is accepted contributes no match.
pub proof fn lemma_match_seq_empty(dict: TermDictionary, a: Acceptor, lo: int, hi: int)
    requires
        forall|i: int| lo <= i < hi ==> !a.spec_accepts(#[trigger] dict.spec_terms()[i]),
    ensures
        match_seq(dict, a, lo, hi) == Seq::<int>::empty(),
    decreases hi - lo,
{
    if lo < hi {
        lemma_match_seq_empty(dict, a, lo + 1, hi);
    }
}

/// The co-traversal emits exactly the brute-force filter: an ordinal is a
/// match exactly when it lies in the range and its term is accepted.
pub proof fn lemma_match_seq_contains(dict: TermDictionary, a: Acceptor, lo: int, hi: int, t: int)
    ensures
        match_seq(dict, a, lo, hi).contains(t) <==> (lo <= t < hi && a.spec_accepts(
            dict.spec_terms()[t],
        )),
    decreases hi - lo,
{
    if lo >= hi {
    } else {
        lemma_match_seq_contains(dict, a, lo + 1, hi, t);
        let rest = match_seq(dict, a, lo + 1, hi);
        if a.spec_accepts(dict.spec_terms()[lo]) {
            let s = seq![lo] + rest;
            assert(s[0] == lo);
            if t == lo {
                assert(s.contains(t));
            }
            if rest.contains(t) {
                let i = choose|i: int| 0 <= i < rest.len() && rest[i] == t;
                assert(s[i + 1] == t);
                assert(s.contains(t));
            }
            if s.contains(t) {
                let i = choose|i: int| 0 <= i < s.len() && s[i] == t;
                if i > 0 {
                    assert(rest[i - 1] == t);
                    assert(rest.contains(t));
                }
            }
        }
    }
}

/// Every match ordinal lies in its range.
pub proof fn lemma_match_seq_in_range(dict: TermDictionary, a: Acceptor, lo: int, hi: int, k: int)
    requires
        0 <= k < match_seq(dict, a, lo, hi).len(),
    ensures
        lo <= match_seq(dict, a, lo, hi)[k] < hi,
        a.spec_accepts(dict.spec_terms()[match_seq(dict, a, lo, hi)[k]]),
    decreases hi - lo,
{
    let s = match_seq(dict, a, lo, hi);
    assert(s.contains(s[k]));
    lemma_match_seq_contains(dict, a, lo, hi, s[k]);
}

/// Matches are emitted in dictionary order: ordinals strictly ascend.
pub proof fn lemma_match_seq_ascending(
    dict: TermDictionary,
    a: Acceptor,
    lo: int,
    hi: int,
    k1: int,
    k2: int,
)
    requires
        0 <= k1 < k2 < match_seq(dict, a, lo, hi).len(),
    ensures
        match_seq(dict, a, lo, hi)[k1] < match_seq(dict, a, lo, hi)[k2],
    decreases hi - lo,
{
    let ms = match_seq(dict, a, lo, hi);
    let rest = match_seq(dict, a, lo + 1, hi);
    if a.spec_accepts(dict.spec_terms()[lo]) {
        if k1 == 0 {
            assert(ms[k2] == rest[k2 - 1]);
            lemma_match_seq_in_range(dict, a, lo + 1, hi, k2 - 1);
        } else {
            assert(ms[k1] == rest[k1 - 1] && ms[k2] == rest[k2 - 1]);
            lemma_match_seq_ascending(dict, a, lo + 1, hi, k1 - 1, k2 - 1);
        }
    } else {
        lemma_match_seq_ascending(dict, a, lo + 1, hi, k1, k2);
    }
}

/// One pending unit of co-traversal work: the terms of `lo .. hi` share
/// their first `depth` bytes, and the acceptor reaches `state` on them.
#[derive(Clone, Copy)]
pub struct Frame {
    pub lo: usize,
    pub hi: usize,
    pub depth: usize,
    pub state: usize,
}

/// What makes a frame meaningful for a dictionary and an acceptor.
pub open spec fn frame_wf(dict: TermDictionary, a: Acceptor, f: Frame) -> bool {
    &&& 0 <= f.lo < f.hi <= dict.spec_terms().len()
    &&& f.depth <= dict.spec_terms()[f.lo as int].len()
    &&& forall|i: int| f.lo <= i < f.hi ==> #[trigger] dict.spec_terms()[i].len() >= f.depth
    &&& forall|i: int| f.lo <= i < f.hi ==> #[trigger] dict.spec_terms()[i].take(f.depth as int)
        == dict.spec_terms()[f.lo as int].take(f.depth as int)
    &&& a.run_from(0, dict.spec_terms()[f.lo as int].take(f.depth as int)) == Some(f.state as int)
    &&& f.state < a.num_states()
}

/// The longest term length among the first `n` terms.
pub open spec fn max_len_up_to(terms: Seq<Seq<u8>>, n: int) -> int
    decreases n,
{
    if n <= 0 {
        0
    } else if terms[n - 1].len() > max_len_up_to(terms, n - 1) {
        terms[n - 1].len() as int
    } else {
        max_len_up_to(terms, n - 1)
    }
}

/// The longest term length in the dictionary.
pub open spec fn dict_max_len(dict: TermDictionary) -> int {
    max_len_up_to(dict.spec_terms(), dict.spec_terms().len() as int)
}

/// Every term is at most the maximum long.
pub proof fn lemma_len_le_max(terms: Seq<Seq<u8>>, i: int, n: int)
    requires
        0 <= i < n,
    ensures
        terms[i].len() <= max_len_up_to(terms, n),
    decreases n,
{
    if i < n - 1 {
        lemma_len_le_max(terms, i, n - 1);
    }
}

/// The work left in one frame, strictly more than the work in all the
/// frames it expands into.
pub open spec fn frame_measure(dict: TermDictionary, f: Frame) -> int {
    (f.hi - f.lo) * (dict_max_len(dict) + 2 - f.depth)
}

/// A well-formed frame holds positive work.
pub proof fn lemma_frame_measure_pos(dict: TermDictionary, a: Acceptor, f: Frame)
    requires
        frame_wf(dict, a, f),
    ensures
        frame_measure(dict, f) >= 1,
{
    lemma_len_le_max(dict.spec_terms(), f.lo as int, dict.spec_terms().len() as int);
    assert(f.depth <= dict_max_len(dict));
    assert((f.hi - f.lo) * (dict_max_len(dict) + 2 - f.depth) >= 1) by (nonlinear_arith)
        requires
            f.hi - f.lo >= 1,
            dict_max_len(dict) + 2 - f.depth >= 2,
    ;
}

/// The matches still to come from a stack of frames, topmost first.
pub open spec fn frames_matches(dict: TermDictionary, a: Acceptor, frames: Seq<Frame>) -> Seq<int>
    decreases frames.len(),
{
    if frames.len() == 0 {
        Seq::empty()
    } else {
        match_seq(dict, a, frames.last().lo as int, frames.last().hi as int) + frames_matches(
            dict,
            a,
            frames.drop_last(),
        )
    }
}

/// The work left on a stack of frames.
pub open spec fn frames_measure(dict: TermDictionary, frames: Seq<Frame>) -> int
    decreases frames.len(),
{
    if frames.len() == 0 {
        0
    } else {
        frame_measure(dict, frames.last()) + frames_measure(dict, frames.drop_last())
    }
}

/// Every frame of a stack is well formed.
pub open spec fn frames_wf(dict: TermDictionary, a: Acceptor, frames: Seq<Frame>) -> bool {
    forall|k: int| 0 <= k < frames.len() ==> frame_wf(dict, a, #[trigger] frames[k])
}

/// Pushing a frame adds its matches in front and its work on top.
pub proof fn lemma_frames_push(dict: TermDictionary, a: Acceptor, frames: Seq<Frame>, f: Frame)
    ensures
        frames_matches(dict, a, frames.push(f)) == match_seq(dict, a, f.lo as int, f.hi as int)
            + frames_matches(dict, a, frames),
        frames_measure(dict, frames.push(f)) == frame_measure(dict, f) + frames_measure(
            dict,
            frames,
        ),
{
    assert(frames.push(f).last() == f);
    assert(frames.push(f).drop_last() =~= frames);
}

/// The work on a well-formed stack is never negative.
pub proof fn lemma_frames_measure_nonneg(dict: TermDictionary, a: Acceptor, frames: Seq<Frame>)
    requires
        frames_wf(dict, a, frames),
    ensures
        frames_measure(dict, frames) >= 0,
    decreases frames.len(),
{
    if frames.len() > 0 {
        assert(frame_wf(dict, a, frames[frames.len() - 1]));
        lemma_frame_measure_pos(dict, a, frames.last());
        lemma_frames_measure_nonneg(dict, a, frames.drop_last());
    }
}

/// In a well-formed frame over a sorted dictionary, every term after the
/// first strictly extends the shared prefix.
pub proof fn lemma_nonhead_longer(dict: TermDictionary, a: Acceptor, f: Frame, i: int)
    requires
        dict.wf(),
        frame_wf(dict, a, f),
        f.lo < i < f.hi,
    ensures
        dict.spec_terms()[i].len() > f.depth,
{
    let d = f.depth as int;
    let head = dict.spec_terms()[f.lo as int];
    let t = dict.spec_terms()[i];
    if t.len() == d {
        assert(t.take(d) =~= t);
        dict.lemma_sorted_pair(f.lo as int, i);
        if head.len() == d {
            assert(head.take(d) =~= head);
            assert(head == t);
            lemma_lex_irrefl(head);
        } else {
            lemma_lex_prefix_lt(head, d);
            assert(lex_lt(t, head));
            lemma_lex_trans(head, t, head);
            lemma_lex_irrefl(head);
        }
    }
}

/// A byte without a transition prunes every term that extends the shared
/// prefix by it.
pub proof fn lemma_prune(dict: TermDictionary, a: Acceptor, f: Frame, i: int, b: u8)
    requires
        frame_wf(dict, a, f),
        f.lo <= i < f.hi,
        dict.spec_terms()[i].len() > f.depth,
        dict.spec_terms()[i][f.depth as int] == b,
        a.spec_step(f.state as int, b) is None,
    ensures
        !a.spec_accepts(dict.spec_terms()[i]),
{
    let d = f.depth as int;
    let t = dict.spec_terms()[i];
    let pre = dict.spec_terms()[f.lo as int].take(d);
    assert(t.take(d) == pre);
    assert(t.take(d + 1) =~= t.take(d).push(t[d]));
    a.lemma_run_snoc(0, t.take(d), b);
    assert(a.run_from(0, t.take(d + 1)) is None);
    assert(t =~= t.take(d + 1) + t.skip(d + 1));
    a.lemma_run_concat(0, t.take(d + 1), t.skip(d + 1));
}

/// The run of terms `lo .. hi` extending the shared prefix by byte `b`
/// with a transition to `state2` forms a well-formed child frame.
pub proof fn lemma_child_wf(dict: TermDictionary, a: Acceptor, f: Frame, g: Frame, b: u8)
    requires
        a.wf(),
        frame_wf(dict, a, f),
        f.lo <= g.lo < g.hi <= f.hi,
        g.depth == f.depth + 1,
        forall|i: int| g.lo <= i < g.hi ==> #[trigger] dict.spec_terms()[i].len() > f.depth,
        forall|i: int| g.lo <= i < g.hi ==> #[trigger] dict.spec_terms()[i][f.depth as int] == b,
        a.spec_step(f.state as int, b) == Some(g.state as int),
    ensures
        frame_wf(dict, a, g),
{
    assert(a.trans@[f.state as int]@[b as int] matches Some(t) && t < a.trans@.len());
    let d = f.depth as int;
    let pre = dict.spec_terms()[f.lo as int].take(d);
    let pre2 = dict.spec_terms()[g.lo as int].take(d + 1);
    assert(dict.spec_terms()[g.lo as int].take(d) == pre);
    assert(pre2 =~= pre.push(b));
    a.lemma_run_snoc(0, pre, b);
    assert(a.run_from(0, pre2) == Some(g.state as int));
    assert forall|i: int| g.lo <= i < g.hi implies #[trigger] dict.spec_terms()[i].take(d + 1)
        == pre2 by {
        assert(dict.spec_terms()[i].take(d) == pre);
        assert(dict.spec_terms()[i].take(d + 1) =~= dict.spec_terms()[i].take(d).push(
            dict.spec_terms()[i][d],
        ));
    }
}

/// A complete term at the head of a frame is accepted exactly when the
/// frame's acceptor state is accepting.
pub proof fn lemma_head_complete(dict: TermDictionary, a: Acceptor, f: Frame)
    requires
        frame_wf(dict, a, f),
        dict.spec_terms()[f.lo as int].len() == f.depth,
    ensures
        a.spec_accepts(dict.spec_terms()[f.lo as int]) == a.accepting(f.state as int),
{
    let head = dict.spec_terms()[f.lo as int];
    assert(head.take(f.depth as int) =~= head);
}

/// The matches of a row of sibling frames from position `c` on, leftmost
/// first.
pub open spec fn row_matches(dict: TermDictionary, a: Acceptor, chs: Seq<Frame>, c: int) -> Seq<
    int,
>
    decreases chs.len() - c,
{
    if c < 0 || c >= chs.len() {
        Seq::empty()
    } else {
        match_seq(dict, a, chs[c].lo as int, chs[c].hi as int) + row_matches(dict, a, chs, c + 1)
    }
}

/// The work in a row of sibling frames from position `c` on.
pub open spec fn row_measure(dict: TermDictionary, chs: Seq<Frame>, c: int) -> int
    decreases chs.len() - c,
{
    if c < 0 || c >= chs.len() {
        0
    } else {
        frame_measure(dict, chs[c]) + row_measure(dict, chs, c + 1)
    }
}

/// Appending a frame to a row adds its matches at the end and its work.
pub proof fn lemma_row_push(dict: TermDictionary, a: Acceptor, chs: Seq<Frame>, c: int, f: Frame)
    requires
        0 <= c <= chs.len(),
    ensures
        row_matches(dict, a, chs.push(f), c) == row_matches(dict, a, chs, c) + match_seq(
            dict,
            a,
            f.lo as int,
            f.hi as int,
        ),
        row_measure(dict, chs.push(f), c) == row_measure(dict, chs, c) + frame_measure(dict, f),
    decreases chs.len() - c,
{
    let fm = match_seq(dict, a, f.lo as int, f.hi as int);
    if c == chs.len() {
        assert(chs.push(f)[c] == f);
        assert(row_matches(dict, a, chs.push(f), c + 1) == Seq::<int>::empty());
        assert(fm + Seq::<int>::empty() =~= fm);
        assert(Seq::<int>::empty() + fm =~= fm);
        assert(row_measure(dict, chs.push(f), c + 1) == 0);
        assert(row_measure(dict, chs.push(f), c) == frame_measure(dict, f));
        assert(row_measure(dict, chs, c) == 0);
    } else {
        assert(chs.push(f)[c] == chs[c]);
        lemma_row_push(dict, a, chs, c + 1, f);
        let head = match_seq(dict, a, chs[c].lo as int, chs[c].hi as int);
        assert(head + (row_matches(dict, a, chs, c + 1) + fm) =~= (head + row_matches(
            dict,
            a,
            chs,
            c + 1,
        )) + fm);
    }
}

/// The lazy matched-term cursor: borrows the dictionary and the acceptor,
/// owns only its traversal stack, and yields one match per call.
pub struct Matcher<'a> {
    pub dict: &'a TermDictionary,
    pub acceptor: &'a Acceptor,
    pub stack: Vec<Frame>,
}

impl<'a> Matcher<'a> {
    /// The dictionary is sorted, the acceptor well formed, and every
    /// pending frame meaningful.
    pub open spec fn wf(self) -> bool {
        &&& self.dict.wf()
        &&& self.acceptor.wf()
        &&& frames_wf(*self.dict, *self.acceptor, self.stack@)
    }

    /// The ordinals still to be emitted, in order.
    pub open spec fn remaining(self) -> Seq<int> {
        frames_matches(*self.dict, *self.acceptor, self.stack@)
    }

    /// A fresh matcher, set to emit every matching term of the dictionary.
    pub fn new(dict: &'a TermDictionary, acceptor: &'a Acceptor) -> (r: Matcher<'a>)
        requires
            dict.wf(),
            acceptor.wf(),
        ensures
            r.wf(),
            r.dict == dict,
            r.acceptor == acceptor,
            r.remaining() == match_seq(*dict, *acceptor, 0, dict.spec_terms().len() as int),
    {
        let n = dict.num_terms();
        let mut stack: Vec<Frame> = Vec::new();
        if n > 0 {
            let f = Frame { lo: 0, hi: n, depth: 0, state: 0 };
            proof {
                assert(dict.spec_terms()[0].take(0) =~= Seq::<u8>::empty());
                assert forall|i: int| 0 <= i < n implies #[trigger] dict.spec_terms()[i].take(0)
                    == dict.spec_terms()[0].take(0) by {
                    assert(dict.spec_terms()[i].take(0) =~= Seq::<u8>::empty());
                }
                assert(frame_wf(*dict, *acceptor, f));
            }
            stack.push(f);
            proof {
                assert(stack@.last() == f);
                assert(stack@.drop_last() =~= Seq::<Frame>::empty());
                assert(frames_matches(*dict, *acceptor, Seq::<Frame>::empty())
                    == Seq::<int>::empty());
                assert(frames_matches(*dict, *acceptor, stack@) == match_seq(
                    *dict,
                    *acceptor,
                    0,
                    n as int,
                ) + Seq::<int>::empty());
                assert(match_seq(*dict, *acceptor, 0, n as int) + Seq::<int>::empty() =~= match_seq(
                    *dict,
                    *acceptor,
                    0,
                    n as int,
                ));
            }
        }
        Matcher { dict, acceptor, stack }
    }

    /// The next matching term and its ordinal, or nothing once every
    /// match has been emitted. Work is bounded by the part of the
    /// dictionary reachable under the acceptor, not by its total size.
    pub fn next(&mut self) -> (r: Option<(Vec<u8>, usize)>)
        requires
            old(self).wf(),
        ensures
            final(self).wf(),
            final(self).dict == old(self).dict,
            final(self).acceptor == old(self).acceptor,
            match r {
                None => old(self).remaining().len() == 0 && final(self).remaining().len() == 0,
                Some(p) => {
                    &&& old(self).remaining().len() > 0
                    &&& p.1 as int == old(self).remaining()[0]
                    &&& p.0@ == old(self).dict.spec_terms()[old(self).remaining()[0]]
                    &&& final(self).remaining() == old(self).remaining().drop_first()
                },
            },
    {
        loop
            invariant
                self.wf(),
                self.dict == old(self).dict,
                self.acceptor == old(self).acceptor,
                self.remaining() == old(self).remaining(),
            decreases frames_measure(*self.dict, self.stack@),
        {
            let ghost stack0 = self.stack@;
            proof {
                lemma_frames_measure_nonneg(*self.dict, *self.acceptor, stack0);
            }
            let popped = self.stack.pop();
            match popped {
                None => {
                    return None;
                },
                Some(f) => {
                    let ghost rest = self.stack@;
                    let ghost dv = *self.dict;
                    let ghost av = *self.acceptor;
                    let ghost ll = dict_max_len(dv);
                    let ghost dd = f.depth as int;
                    proof {
                        assert(stack0.last() == f);
                        assert(stack0.drop_last() == rest);
                        assert(frame_wf(dv, av, stack0[stack0.len() - 1]));
                        assert(frame_wf(dv, av, f));
                        assert forall|k: int| 0 <= k < rest.len() implies frame_wf(
                            dv,
                            av,
                            #[trigger] rest[k],
                        ) by {
                            assert(rest[k] == stack0[k]);
                            assert(frame_wf(dv, av, stack0[k]));
                        }
                        lemma_len_le_max(dv.spec_terms(), f.lo as int, dv.spec_terms().len() as int);
                        assert(dd <= ll);
                    }
                    let head_len = self.dict.term(f.lo).len();
                    let complete = head_len == f.depth;
                    let accept_here = self.acceptor.is_accepting(f.state);
                    let lo2 = if complete {
                        f.lo + 1
                    } else {
                        f.lo
                    };
                    proof {
                        assert forall|i: int| lo2 <= i < f.hi implies #[trigger] dv.spec_terms()[i].len()
                            > f.depth by {
                            if i == f.lo {
                                assert(!complete);
                                assert(dv.spec_terms()[i].len() >= f.depth);
                            } else {
                                lemma_nonhead_longer(dv, av, f, i);
                            }
                        }
                    }
                    let mut children: Vec<Frame> = Vec::new();
                    let mut j = lo2;
                    proof {
                        assert(row_matches(dv, av, children@, 0) == Seq::<int>::empty());
                        assert(match_seq(dv, av, lo2 as int, lo2 as int) == Seq::<int>::empty());
                    }
                    while j < f.hi
                        invariant
                            self.wf(),
                            self.dict == old(self).dict,
                            self.acceptor == old(self).acceptor,
                            dv == *self.dict,
                            av == *self.acceptor,
                            ll == dict_max_len(dv),
                            dd == f.depth as int,
                            dd <= ll,
                            frame_wf(dv, av, f),
                            f.lo <= lo2 <= f.lo + 1,
                            lo2 <= j <= f.hi,
                            forall|i: int| lo2 <= i < f.hi ==> #[trigger] dv.spec_terms()[i].len()
                                > f.depth,
                            frames_wf(dv, av, children@),
                            row_matches(dv, av, children@, 0) == match_seq(
                                dv,
                                av,
                                lo2 as int,
                                j as int,
                            ),
                            row_measure(dv, children@, 0) <= (j - lo2) * (ll + 1 - dd),
                        decreases f.hi - j,
                    {
                        proof {
                            assert(dv.spec_terms()[j as int].len() > f.depth);
                            assert(dv.spec_terms()[j as int] == self.dict.terms@[j as int]@);
                            assert(j < self.dict.terms@.len());
                        }
                        let tl = self.dict.terms[j].len();
                        proof {
                            assert(f.depth < tl);
                        }
                        let b = self.dict.terms[j][f.depth];
                        let mut e = j + 1;
                        while e < f.hi
                            invariant
                                dv == *self.dict,
                                f.hi <= dv.spec_terms().len(),
                                lo2 <= j < e <= f.hi,
                                lo2 <= f.hi,
                                forall|i: int| lo2 <= i < f.hi ==> #[trigger] dv.spec_terms()[i].len()
                                    > f.depth,
                                forall|i: int| j <= i < e ==> #[trigger] dv.spec_terms()[i][f.depth as int]
                                    == b,
                            decreases f.hi - e,
                        {
                            proof {
                                assert(dv.spec_terms()[e as int].len() > f.depth);
                                assert(dv.spec_terms()[e as int] == self.dict.terms@[e as int]@);
                                assert(e < self.dict.terms@.len());
                            }
                            if self.dict.terms[e][f.depth] == b {
                                e += 1;
                            } else {
                                break ;
                            }
                        }
                        match self.acceptor.step(f.state, b) {
                            Some(t2) => {
                                let ch = Frame { lo: j, hi: e, depth: f.depth + 1, state: t2 };
                                proof {
                                    lemma_child_wf(dv, av, f, ch, b);
                                    lemma_row_push(dv, av, children@, 0, ch);
                                    lemma_match_seq_split(dv, av, lo2 as int, j as int, e as int);
                                    assert(frame_measure(dv, ch) == (e - j) * (ll + 1 - dd));
                                    assert((j - lo2) * (ll + 1 - dd) + (e - j) * (ll + 1 - dd) == (
                                    e - lo2) * (ll + 1 - dd)) by (nonlinear_arith);
                                }
                                children.push(ch);
                                proof {
                                    assert forall|k: int| 0 <= k < children@.len() implies frame_wf(
                                        dv,
                                        av,
                                        #[trigger] children@[k],
                                    ) by {
                                        if k == children@.len() - 1 {
                                            assert(children@[k] == ch);
                                        }
                                    }
                                }
                            },
                            None => {
                                proof {
                                    assert forall|i: int| j <= i < e implies !av.spec_accepts(
                                        #[trigger] dv.spec_terms()[i],
                                    ) by {
                                        lemma_prune(dv, av, f, i, b);
                                    }
                                    lemma_match_seq_empty(dv, av, j as int, e as int);
                                    lemma_match_seq_split(dv, av, lo2 as int, j as int, e as int);
                                    assert(match_seq(dv, av, lo2 as int, j as int) + Seq::<
                                        int,
                                    >::empty() =~= match_seq(dv, av, lo2 as int, j as int));
                                    assert((e - j) * (ll + 1 - dd) >= 0) by (nonlinear_arith)
                                        requires
                                            e >= j,
                                            ll + 1 - dd >= 1,
                                    ;
                                    assert((j - lo2) * (ll + 1 - dd) + (e - j) * (ll + 1 - dd) == (
                                    e - lo2) * (ll + 1 - dd)) by (nonlinear_arith);
                                }
                            },
                        }
                        j = e;
                    }
                    let ghost mrest = frames_measure(dv, rest);
                    proof {
                        assert(frames_matches(dv, av, stack0) == match_seq(
                            dv,
                            av,
                            f.lo as int,
                            f.hi as int,
                        ) + frames_matches(dv, av, rest));
                        assert(frames_measure(dv, stack0) == frame_measure(dv, f) + mrest);
                        assert(row_matches(dv, av, children@, 0) == match_seq(
                            dv,
                            av,
                            lo2 as int,
                            f.hi as int,
                        ));
                        assert(frames_matches(dv, av, self.stack@) == row_matches(
                            dv,
                            av,
                            children@,
                            children@.len() as int,
                        ) + frames_matches(dv, av, rest));
                    }
                    let mut c = children.len();
                    while c > 0
                        invariant
                            self.dict == old(self).dict,
                            self.acceptor == old(self).acceptor,
                            dv == *self.dict,
                            av == *self.acceptor,
                            self.wf(),
                            c <= children@.len(),
                            frames_wf(dv, av, children@),
                            frames_matches(dv, av, self.stack@) == row_matches(
                                dv,
                                av,
                                children@,
                                c as int,
                            ) + frames_matches(dv, av, rest),
                            frames_measure(dv, self.stack@) == row_measure(dv, children@, c as int)
                                + frames_measure(dv, rest),
                        decreases c,
                    {
                        c -= 1;
                        let ch = children[c];
                        let ghost prev = self.stack@;
                        self.stack.push(ch);
                        proof {
                            lemma_frames_push(dv, av, prev, ch);
                            assert(frame_wf(dv, av, ch));
                            assert forall|k: int| 0 <= k < self.stack@.len() implies frame_wf(
                                dv,
                                av,
                                #[trigger] self.stack@[k],
                            ) by {
                                if k < prev.len() {
                                    assert(self.stack@[k] == prev[k]);
                                } else {
                                    assert(self.stack@[k] == ch);
                                }
                            }
                            let chm = match_seq(dv, av, ch.lo as int, ch.hi as int);
                            assert(chm + (row_matches(dv, av, children@, c + 1) + frames_matches(
                                dv,
                                av,
                                rest,
                            )) =~= (chm + row_matches(dv, av, children@, c + 1)) + frames_matches(
                                dv,
                                av,
                                rest,
                            ));
                        }
                    }
                    proof {
                        assert(frames_matches(dv, av, self.stack@) == match_seq(
                            dv,
                            av,
                            lo2 as int,
                            f.hi as int,
                        ) + frames_matches(dv, av, rest));
                        assert(row_measure(dv, children@, 0) <= (f.hi - lo2) * (ll + 1 - dd));
                        assert((f.hi - lo2) * (ll + 1 - dd) <= (f.hi - f.lo) * (ll + 1 - dd))
                            by (nonlinear_arith)
                            requires
                                f.lo <= lo2,
                                ll + 1 - dd >= 1,
                        ;
                        assert((f.hi - f.lo) * (ll + 2 - dd) == (f.hi - f.lo) * (ll + 1 - dd) + (
                        f.hi - f.lo)) by (nonlinear_arith);
                        assert(frames_measure(dv, self.stack@) < frames_measure(dv, stack0));
                        lemma_frames_measure_nonneg(dv, av, self.stack@);
                    }
                    if complete {
                        proof {
                            lemma_head_complete(dv, av, f);
                        }
                        if accept_here {
                            proof {
                                let ms2 = match_seq(dv, av, lo2 as int, f.hi as int);
                                let rem_new = frames_matches(dv, av, self.stack@);
                                assert(match_seq(dv, av, f.lo as int, f.hi as int) == seq![
                                    f.lo as int,
                                ] + ms2);
                                assert((seq![f.lo as int] + ms2) + frames_matches(dv, av, rest)
                                    =~= seq![f.lo as int] + (ms2 + frames_matches(dv, av, rest)));
                                assert(frames_matches(dv, av, stack0) == seq![f.lo as int]
                                    + rem_new);
                                assert((seq![f.lo as int] + rem_new)[0] == f.lo as int);
                                assert((seq![f.lo as int] + rem_new).drop_first() =~= rem_new);
                            }
                            let bytes = copy_bytes(self.dict.term(f.lo));
                            return Some((bytes, f.lo));
                        }
                    }
                    proof {
                        if complete {
                            assert(!av.spec_accepts(dv.spec_terms()[f.lo as int]));
                            assert(match_seq(dv, av, f.lo as int, f.hi as int) == match_seq(
                                dv,
                                av,
                                lo2 as int,
                                f.hi as int,
                            ));
                        }
                    }
                },
            }
        }
    }
}

/// An independent copy of a byte string.
fn copy_bytes(v: &Vec<u8>) -> (r: Vec<u8>)
    ensures
        r@ == v@,
{
    let mut r: Vec<u8> = Vec::new();
    let mut k: usize = 0;
    while k < v.len()
        invariant
            k <= v@.len(),
            r@ == v@.take(k as int),
        decreases v@.len() - k,
    {
        r.push(v[k]);
        proof {
            assert(v@.take(k + 1) =~= v@.take(k as int).push(v@[k as int]));
        }
        k += 1;
    }
    proof {
        assert(v@.take(v@.len() as int) =~= v@);
    }
    r
}

/// Every matching term of the dictionary with its ordinal, in ascending
/// dictionary order: the matched-term sequence, fully drained.
pub fn matched_terms(dict: &TermDictionary, acceptor: &Acceptor) -> (r: Vec<(Vec<u8>, usize)>)
    requires
        dict.wf(),
        acceptor.wf(),
    ensures
        ({
            let ms = match_seq(*dict, *acceptor, 0, dict.spec_terms().len() as int);
            &&& r@.len() == ms.len()
            &&& forall|k: int| 0 <= k < ms.len() ==> #[trigger] r@[k].1 as int == ms[k]
            &&& forall|k: int| 0 <= k < ms.len() ==> #[trigger] r@[k].0@ == dict.spec_terms()[ms[k]]
            &&& forall|k1: int, k2: int|
                0 <= k1 < k2 < ms.len() ==> #[trigger] ms[k1] < #[trigger] ms[k2]
        }),
{
    let ghost ms = match_seq(*dict, *acceptor, 0, dict.spec_terms().len() as int);
    let mut m = Matcher::new(dict, acceptor);
    let mut out: Vec<(Vec<u8>, usize)> = Vec::new();
    proof {
        assert(ms.skip(0) =~= ms);
    }
    loop
        invariant
            m.wf(),
            m.dict == dict,
            m.acceptor == acceptor,
            ms == match_seq(*dict, *acceptor, 0, dict.spec_terms().len() as int),
            out@.len() + m.remaining().len() == ms.len(),
            m.remaining() == ms.skip(out@.len() as int),
            forall|k: int| 0 <= k < out@.len() ==> #[trigger] out@[k].1 as int == ms[k],
            forall|k: int| 0 <= k < out@.len() ==> #[trigger] out@[k].0@ == dict.spec_terms()[ms[k]],
        decreases m.remaining().len(),
    {
        let ghost q = out@.len() as int;
        match m.next() {
            None => {
                proof {
                    assert forall|k1: int, k2: int| 0 <= k1 < k2 < ms.len() implies #[trigger] ms[k1]
                        < #[trigger] ms[k2] by {
                        lemma_match_seq_ascending(
                            *dict,
                            *acceptor,
                            0,
                            dict.spec_terms().len() as int,
                            k1,
                            k2,
                        );
                    }
                }
                return out;
            },
            Some(p) => {
                proof {
                    assert(ms.skip(q)[0] == ms[q]);
                    assert(ms.skip(q).drop_first() =~= ms.skip(q + 1));
                }
                out.push(p);
            },
        }
    }
}

} // verus!
