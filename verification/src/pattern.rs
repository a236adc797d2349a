//! The pattern language and its parser.
//!
//! A pattern is a sequence of single-byte items: a literal character, a
//! wildcard `.`, an escaped literal, a character class such as `[ao]`,
//! `[a-z0-9]` or `[^x]`, or a balanced group `( ... )` of items, each
//! optionally followed by an exact repetition count `{n}`. Parsing yields
//! one set of admitted bytes per item. A literal outside ASCII stands for
//! its UTF-8 bytes, one item per byte. A malformed pattern (unbalanced
//! class or group, bad range, unsupported operator such as `*`, `+`, `?`
//! or `|`) yields no item list at all.

use vstd::prelude::*;

verus! {

/// A set of byte values, one flag per possible byte.
pub struct ByteClass {
    pub bits: Vec<bool>,
}

impl View for ByteClass {
    type V = Seq<bool>;

    open spec fn view(&self) -> Seq<bool> {
        self.bits@
    }
}

/// A well-formed class has exactly one flag per byte value.
pub open spec fn class_wf(c: Seq<bool>) -> bool {
    c.len() == 256
}

/// Whether byte `b` belongs to the class `c`.
pub open spec fn class_has(c: Seq<bool>, b: u8) -> bool {
    c[b as int]
}

/// The class admitting no byte.
pub open spec fn empty_class() -> Seq<bool> {
    Seq::new(256, |i: int| false)
}

/// The class admitting every byte.
pub open spec fn full_class() -> Seq<bool> {
    Seq::new(256, |i: int| true)
}

/// The class admitting exactly byte `b`.
pub open spec fn singleton_class(b: u8) -> Seq<bool> {
    Seq::new(256, |i: int| i == b as int)
}

/// `c` widened by the inclusive byte range `lo ..= hi`.
pub open spec fn class_with_range(c: Seq<bool>, lo: u8, hi: u8) -> Seq<bool> {
    Seq::new(256, |i: int| c[i] || (lo as int <= i <= hi as int))
}

/// The complement of `c`.
pub open spec fn negated_class(c: Seq<bool>) -> Seq<bool> {
    Seq::new(256, |i: int| !c[i])
}

/// Printable ASCII, the alphabet patterns are written in.
pub open spec fn printable(b: u8) -> bool {
    0x20 <= b <= 0x7e
}

/// Characters that may follow a backslash: printable punctuation.
/// Escaping a letter or digit is reserved syntax and is rejected.
pub open spec fn escapable(b: u8) -> bool {
    &&& printable(b)
    &&& !(0x30 <= b <= 0x39)
    &&& !(0x41 <= b <= 0x5a)
    &&& !(0x61 <= b <= 0x7a)
}

/// A decimal digit.
pub open spec fn digit(b: u8) -> bool {
    0x30 <= b <= 0x39
}

/// Bytes that stand for themselves outside a class.
pub open spec fn plain_literal(b: u8) -> bool {
    &&& printable(b)
    &&& b != 0x5b  // [
    &&& b != 0x5d  // ]
    &&& b != 0x28  // (
    &&& b != 0x29  // )
    &&& b != 0x7b  // {
    &&& b != 0x7d  // }
    &&& b != 0x2a  // *
    &&& b != 0x2b  // +
    &&& b != 0x3f  // ?
    &&& b != 0x7c  // |
    &&& b != 0x2e  // .
    &&& b != 0x5c  // backslash
}

/// One character inside a class body: an escaped punctuation character or
/// any printable byte other than `]` and the backslash. Returns the byte
/// it stands for and the index just past it.
pub open spec fn spec_class_char(p: Seq<u8>, i: int) -> Option<(u8, int)> {
    if 0 <= i < p.len() {
        if p[i] == 0x5c {
            if i + 1 < p.len() && escapable(p[i + 1]) {
                Some((p[i + 1], i + 2))
            } else {
                None
            }
        } else if printable(p[i]) && p[i] != 0x5d && p[i] != 0x5c {
            Some((p[i], i + 1))
        } else {
            None
        }
    } else {
        None
    }
}

/// The entries of a class body, folded into `acc`, up to and including the
/// closing `]`. An entry is a single character or a range `a-b`; a `-`
/// directly before `]` is a plain character.
pub open spec fn spec_class_entries(p: Seq<u8>, i: int, acc: Seq<bool>) -> Option<(Seq<bool>, int)>
    decreases p.len() - i,
{
    if 0 <= i < p.len() && p[i] == 0x5d {
        Some((acc, i + 1))
    } else {
        match spec_class_char(p, i) {
            Some((c1, j)) => {
                if j + 1 < p.len() && p[j] == 0x2d && p[j + 1] != 0x5d {
                    match spec_class_char(p, j + 1) {
                        Some((c2, k)) => {
                            if c1 <= c2 && i < k <= p.len() {
                                spec_class_entries(p, k, class_with_range(acc, c1, c2))
                            } else {
                                None
                            }
                        },
                        None => None,
                    }
                } else if i < j <= p.len() {
                    spec_class_entries(p, j, class_with_range(acc, c1, c1))
                } else {
                    None
                }
            },
            None => None,
        }
    }
}

/// A class body starting right after `[`: an optional `^`, then at least
/// one entry, then `]`.
pub open spec fn spec_class_body(p: Seq<u8>, i: int) -> Option<(Seq<bool>, int)> {
    if 0 <= i < p.len() {
        let neg = p[i] == 0x5e;
        let j = if neg { i + 1 } else { i };
        if j < p.len() && p[j] == 0x5d {
            None
        } else {
            match spec_class_entries(p, j, empty_class()) {
                Some((cls, k)) => Some(((if neg { negated_class(cls) } else { cls }), k)),
                None => None,
            }
        }
    } else {
        None
    }
}

/// `items` repeated `n` times over.
pub open spec fn repeat_items(items: Seq<Seq<bool>>, n: int) -> Seq<Seq<bool>>
    decreases n,
{
    if n <= 0 {
        Seq::empty()
    } else {
        repeat_items(items, n - 1) + items
    }
}

/// One atom of the pattern: wildcard, escaped literal, class, balanced
/// group, or plain literal. Returns the item sequence it denotes and the
/// index just past it. A byte outside ASCII stands for itself, so a
/// multi-byte character in the pattern matches its own UTF-8 byte
/// sequence, one item per byte; classes and operators are ASCII.
pub open spec fn spec_atom(p: Seq<u8>, i: int) -> Option<(Seq<Seq<bool>>, int)>
    decreases p.len() - i, 0int,
{
    if 0 <= i < p.len() {
        let b = p[i];
        if b == 0x2e {
            Some((seq![full_class()], i + 1))
        } else if b == 0x5c {
            if i + 1 < p.len() && escapable(p[i + 1]) {
                Some((seq![singleton_class(p[i + 1])], i + 2))
            } else {
                None
            }
        } else if b == 0x5b {
            match spec_class_body(p, i + 1) {
                Some((cls, j)) => Some((seq![cls], j)),
                None => None,
            }
        } else if b == 0x28 {
            spec_group_items(p, i + 1, Seq::empty())
        } else if plain_literal(b) || b >= 0x80 {
            Some((seq![singleton_class(b)], i + 1))
        } else {
            None
        }
    } else {
        None
    }
}

/// One element: an atom, optionally followed by an exact repetition
/// count, which repeats the whole atom.
pub open spec fn spec_element(p: Seq<u8>, i: int) -> Option<(Seq<Seq<bool>>, int)>
    decreases p.len() - i, 1int,
{
    match spec_atom(p, i) {
        Some((items, j)) => {
            if j < p.len() && p[j] == 0x7b {
                match spec_rep_count(p, j + 1) {
                    Some((n, k)) => {
                        if 0 <= n && i < k <= p.len() {
                            Some((repeat_items(items, n), k))
                        } else {
                            None
                        }
                    },
                    None => None,
                }
            } else if i < j <= p.len() {
                Some((items, j))
            } else {
                None
            }
        },
        None => None,
    }
}

/// The items of a parenthesised group, folded into `acc`, up to and
/// including the closing `)`; a group left unbalanced denotes nothing.
pub open spec fn spec_group_items(p: Seq<u8>, i: int, acc: Seq<Seq<bool>>) -> Option<
    (Seq<Seq<bool>>, int),
>
    decreases p.len() - i, 2int,
{
    if 0 <= i < p.len() && p[i] == 0x29 {
        Some((acc, i + 1))
    } else {
        match spec_element(p, i) {
            Some((items, j)) => {
                if i < j <= p.len() {
                    spec_group_items(p, j, acc + items)
                } else {
                    None
                }
            },
            None => None,
        }
    }
}

/// An exact repetition count starting right after `{`: one to three
/// decimal digits followed by `}`. Returns the count and the index just
/// past the `}`.
pub open spec fn spec_rep_count(p: Seq<u8>, i: int) -> Option<(int, int)> {
    if 0 <= i < p.len() && digit(p[i]) {
        let d0 = p[i] - 0x30;
        if i + 1 < p.len() && p[i + 1] == 0x7d {
            Some((d0 as int, i + 2))
        } else if i + 1 < p.len() && digit(p[i + 1]) {
            let d1 = p[i + 1] - 0x30;
            if i + 2 < p.len() && p[i + 2] == 0x7d {
                Some((d0 * 10 + d1, i + 3))
            } else if i + 2 < p.len() && digit(p[i + 2]) {
                let d2 = p[i + 2] - 0x30;
                if i + 3 < p.len() && p[i + 3] == 0x7d {
                    Some((d0 * 100 + d1 * 10 + d2, i + 4))
                } else {
                    None
                }
            } else {
                None
            }
        } else {
            None
        }
    } else {
        None
    }
}

/// The item list of the whole pattern from index `i` on, appended to `acc`.
pub open spec fn spec_items_from(p: Seq<u8>, i: int, acc: Seq<Seq<bool>>) -> Option<Seq<Seq<bool>>>
    decreases p.len() - i, 3int,
{
    if i >= p.len() {
        Some(acc)
    } else {
        match spec_element(p, i) {
            Some((items, j)) => {
                if i < j <= p.len() {
                    spec_items_from(p, j, acc + items)
                } else {
                    None
                }
            },
            None => None,
        }
    }
}

/// The item list of a whole pattern, if the pattern is well formed.
pub open spec fn spec_pattern_items(p: Seq<u8>) -> Option<Seq<Seq<bool>>> {
    spec_items_from(p, 0, Seq::empty())
}

/// Whether the pattern text is well formed.
pub open spec fn pattern_valid(p: Seq<u8>) -> bool {
    spec_pattern_items(p) is Some
}

/// Whether the byte string `s` belongs to the language of the item list:
/// one byte per item, each admitted by its item's class.
pub open spec fn items_match(items: Seq<Seq<bool>>, s: Seq<u8>) -> bool {
    &&& s.len() == items.len()
    &&& forall|j: int| 0 <= j < s.len() ==> class_has(items[j], #[trigger] s[j])
}

/// Whether the byte string `s` belongs to the language of the pattern `p`.
pub open spec fn pattern_matches(p: Seq<u8>, s: Seq<u8>) -> bool {
    &&& pattern_valid(p)
    &&& items_match(spec_pattern_items(p).unwrap(), s)
}

/// The classes denoted by a sequence of parsed items.
pub open spec fn classes_of(v: Seq<ByteClass>) -> Seq<Seq<bool>> {
    Seq::new(v.len(), |i: int| v[i]@)
}

impl ByteClass {
    /// The class admitting no byte.
    pub fn empty() -> (r: ByteClass)
        ensures
            r@ == empty_class(),
    {
        let mut bits: Vec<bool> = Vec::new();
        let mut k: usize = 0;
        while k < 256
            invariant
                k <= 256,
                bits@.len() == k,
                forall|i: int| 0 <= i < k ==> !bits@[i],
            decreases 256 - k,
        {
            bits.push(false);
            k += 1;
        }
        let r = ByteClass { bits };
        proof {
            assert(r@ =~= empty_class());
        }
        r
    }

    /// The class admitting every byte.
    pub fn full() -> (r: ByteClass)
        ensures
            r@ == full_class(),
    {
        let mut bits: Vec<bool> = Vec::new();
        let mut k: usize = 0;
        while k < 256
            invariant
                k <= 256,
                bits@.len() == k,
                forall|i: int| 0 <= i < k ==> bits@[i],
            decreases 256 - k,
        {
            bits.push(true);
            k += 1;
        }
        let r = ByteClass { bits };
        proof {
            assert(r@ =~= full_class());
        }
        r
    }

    /// The class admitting exactly byte `b`.
    pub fn singleton(b: u8) -> (r: ByteClass)
        ensures
            r@ == singleton_class(b),
    {
        let mut c = ByteClass::empty();
        c.add_range(b, b);
        proof {
            assert(c@ =~= singleton_class(b));
        }
        c
    }

    /// Admit every byte of the inclusive range `lo ..= hi` as well.
    pub fn add_range(&mut self, lo: u8, hi: u8)
        requires
            class_wf(old(self)@),
        ensures
            final(self)@ == class_with_range(old(self)@, lo, hi),
    {
        if lo > hi {
            proof {
                assert(self@ =~= class_with_range(old(self)@, lo, hi));
            }
            return ;
        }
        let mut k: usize = lo as usize;
        while k <= hi as usize
            invariant
                lo as usize <= k <= hi as usize + 1,
                class_wf(self@),
                forall|i: int| 0 <= i < 256 ==>
                    self@[i] == (old(self)@[i] || (lo as int <= i < k)),
            decreases hi as usize + 1 - k,
        {
            self.bits.set(k, true);
            k += 1;
        }
        proof {
            assert(self@ =~= class_with_range(old(self)@, lo, hi));
        }
    }

    /// Replace the class by its complement.
    pub fn negate(&mut self)
        requires
            class_wf(old(self)@),
        ensures
            final(self)@ == negated_class(old(self)@),
    {
        let mut k: usize = 0;
        while k < 256
            invariant
                k <= 256,
                class_wf(self@),
                forall|i: int| 0 <= i < k ==> self@[i] == !old(self)@[i],
                forall|i: int| k <= i < 256 ==> self@[i] == old(self)@[i],
            decreases 256 - k,
        {
            let flipped = !self.bits[k];
            self.bits.set(k, flipped);
            k += 1;
        }
        proof {
            assert(self@ =~= negated_class(old(self)@));
        }
    }

    /// An independent copy of the class.
    pub fn duplicate(&self) -> (r: ByteClass)
        ensures
            r@ == self@,
    {
        let mut bits: Vec<bool> = Vec::new();
        let mut k: usize = 0;
        while k < self.bits.len()
            invariant
                k <= self.bits@.len(),
                bits@ == self.bits@.take(k as int),
            decreases self.bits@.len() - k,
        {
            bits.push(self.bits[k]);
            k += 1;
        }
        proof {
            assert(bits@ =~= self.bits@);
        }
        ByteClass { bits }
    }
}

/// Whether `b` is printable ASCII.
fn is_printable(b: u8) -> (r: bool)
    ensures
        r == printable(b),
{
    0x20 <= b && b <= 0x7e
}

/// Whether `b` may follow a backslash.
fn is_escapable(b: u8) -> (r: bool)
    ensures
        r == escapable(b),
{
    is_printable(b) && !(0x30 <= b && b <= 0x39) && !(0x41 <= b && b <= 0x5a) && !(0x61 <= b
        && b <= 0x7a)
}

/// Whether `b` is a decimal digit.
fn is_digit(b: u8) -> (r: bool)
    ensures
        r == digit(b),
{
    0x30 <= b && b <= 0x39
}

/// Whether `b` stands for itself outside a class.
fn is_plain_literal(b: u8) -> (r: bool)
    ensures
        r == plain_literal(b),
{
    is_printable(b) && b != 0x5b && b != 0x5d && b != 0x28 && b != 0x29 && b != 0x7b && b != 0x7d
        && b != 0x2a && b != 0x2b && b != 0x3f && b != 0x7c && b != 0x2e && b != 0x5c
}

/// One character of a class body.
fn class_char(p: &[u8], i: usize) -> (r: Option<(u8, usize)>)
    ensures
        match r {
            Some((c, j)) => spec_class_char(p@, i as int) == Some((c, j as int)) && i < j
                <= p@.len(),
            None => spec_class_char(p@, i as int) is None,
        },
{
    if i < p.len() {
        let b = p[i];
        if b == 0x5c {
            if i + 1 < p.len() && is_escapable(p[i + 1]) {
                Some((p[i + 1], i + 2))
            } else {
                None
            }
        } else if is_printable(b) && b != 0x5d && b != 0x5c {
            Some((b, i + 1))
        } else {
            None
        }
    } else {
        None
    }
}

/// The entries of a class body up to and including the closing `]`.
fn class_entries(p: &[u8], start: usize, acc0: ByteClass) -> (r: Option<(ByteClass, usize)>)
    requires
        class_wf(acc0@),
        start <= p@.len(),
    ensures
        match r {
            Some((cls, j)) => spec_class_entries(p@, start as int, acc0@) == Some(
                (cls@, j as int),
            ) && class_wf(cls@) && start < j <= p@.len(),
            None => spec_class_entries(p@, start as int, acc0@) is None,
        },
{
    let mut i = start;
    let mut acc = acc0;
    loop
        invariant
            class_wf(acc@),
            start <= i <= p@.len(),
            spec_class_entries(p@, start as int, acc0@) == spec_class_entries(p@, i as int, acc@),
        decreases p@.len() - i,
    {
        if i < p.len() && p[i] == 0x5d {
            return Some((acc, i + 1));
        }
        match class_char(p, i) {
            None => {
                return None;
            },
            Some((c1, j)) => {
                if j < p.len() && p[j] == 0x2d && j + 1 < p.len() && p[j + 1] != 0x5d {
                    match class_char(p, j + 1) {
                        None => {
                            return None;
                        },
                        Some((c2, k)) => {
                            if c1 <= c2 {
                                acc.add_range(c1, c2);
                                i = k;
                            } else {
                                return None;
                            }
                        },
                    }
                } else {
                    acc.add_range(c1, c1);
                    i = j;
                }
            },
        }
    }
}

/// A class body starting right after `[`.
fn class_body(p: &[u8], i: usize) -> (r: Option<(ByteClass, usize)>)
    requires
        i <= p@.len(),
    ensures
        match r {
            Some((cls, j)) => spec_class_body(p@, i as int) == Some((cls@, j as int)) && class_wf(
                cls@,
            ) && i < j <= p@.len(),
            None => spec_class_body(p@, i as int) is None,
        },
{
    if i < p.len() {
        let neg = p[i] == 0x5e;
        let j = if neg {
            i + 1
        } else {
            i
        };
        if j < p.len() && p[j] == 0x5d {
            None
        } else {
            match class_entries(p, j, ByteClass::empty()) {
                Some((cls, k)) => {
                    let mut cls = cls;
                    if neg {
                        cls.negate();
                    }
                    Some((cls, k))
                },
                None => None,
            }
        }
    } else {
        None
    }
}

/// Appends a copy of every item of `src` to `dst`.
fn append_items(dst: &mut Vec<ByteClass>, src: &Vec<ByteClass>)
    requires
        forall|q: int| 0 <= q < old(dst)@.len() ==> class_wf(#[trigger] old(dst)@[q]@),
        forall|q: int| 0 <= q < src@.len() ==> class_wf(#[trigger] src@[q]@),
    ensures
        classes_of(final (dst)@) == classes_of(old(dst)@) + classes_of(src@),
        forall|q: int| 0 <= q < final (dst)@.len() ==> class_wf(#[trigger] final (dst)@[q]@),
{
    let ghost base = dst@;
    let mut t: usize = 0;
    while t < src.len()
        invariant
            t <= src@.len(),
            forall|q: int| 0 <= q < base.len() ==> class_wf(#[trigger] base[q]@),
            forall|q: int| 0 <= q < src@.len() ==> class_wf(#[trigger] src@[q]@),
            dst@.len() == base.len() + t,
            forall|q: int| 0 <= q < base.len() ==> #[trigger] dst@[q] == base[q],
            forall|q: int| 0 <= q < t ==> #[trigger] dst@[base.len() + q]@ == src@[q]@,
        decreases src@.len() - t,
    {
        let c = src[t].duplicate();
        dst.push(c);
        t += 1;
    }
    proof {
        assert forall|q: int| 0 <= q < dst@.len() implies class_wf(#[trigger] dst@[q]@) by {
            if q < base.len() {
                assert(dst@[q] == base[q]);
            } else {
                assert(dst@[base.len() + (q - base.len())]@ == src@[q - base.len()]@);
            }
        }
        assert forall|q: int| 0 <= q < dst@.len() implies classes_of(dst@)[q] == (classes_of(base)
            + classes_of(src@))[q] by {
            if q < base.len() {
                assert(dst@[q] == base[q]);
            } else {
                assert(dst@[base.len() + (q - base.len())]@ == src@[q - base.len()]@);
            }
        }
        assert(classes_of(dst@) =~= classes_of(base) + classes_of(src@));
    }
}

/// One atom of the pattern.
fn atom(p: &[u8], i: usize) -> (r: Option<(Vec<ByteClass>, usize)>)
    requires
        i <= p@.len(),
    ensures
        match r {
            Some((items, j)) => spec_atom(p@, i as int) == Some((classes_of(items@), j as int))
                && (forall|q: int| 0 <= q < items@.len() ==> class_wf(#[trigger] items@[q]@)) && i
                < j <= p@.len(),
            None => spec_atom(p@, i as int) is None,
        },
    decreases p@.len() - i, 0int,
{
    if i < p.len() {
        let b = p[i];
        if b == 0x2e {
            let items = single_item(ByteClass::full());
            Some((items, i + 1))
        } else if b == 0x5c {
            if i + 1 < p.len() && is_escapable(p[i + 1]) {
                let items = single_item(ByteClass::singleton(p[i + 1]));
                Some((items, i + 2))
            } else {
                None
            }
        } else if b == 0x5b {
            match class_body(p, i + 1) {
                Some((cls, j)) => {
                    let items = single_item(cls);
                    Some((items, j))
                },
                None => None,
            }
        } else if b == 0x28 {
            group_items(p, i + 1)
        } else if is_plain_literal(b) || b >= 0x80 {
            let items = single_item(ByteClass::singleton(b));
            Some((items, i + 1))
        } else {
            None
        }
    } else {
        None
    }
}

/// The one-item sequence of a single class.
fn single_item(cls: ByteClass) -> (r: Vec<ByteClass>)
    requires
        class_wf(cls@),
    ensures
        classes_of(r@) == seq![cls@],
        forall|q: int| 0 <= q < r@.len() ==> class_wf(#[trigger] r@[q]@),
{
    let mut r: Vec<ByteClass> = Vec::new();
    r.push(cls);
    proof {
        assert(classes_of(r@) =~= seq![r@[0]@]);
    }
    r
}

/// One element: an atom with its optional repetition count.
fn element(p: &[u8], i: usize) -> (r: Option<(Vec<ByteClass>, usize)>)
    requires
        i <= p@.len(),
    ensures
        match r {
            Some((items, j)) => spec_element(p@, i as int) == Some((classes_of(items@), j as int))
                && (forall|q: int| 0 <= q < items@.len() ==> class_wf(#[trigger] items@[q]@)) && i
                < j <= p@.len(),
            None => spec_element(p@, i as int) is None,
        },
    decreases p@.len() - i, 1int,
{
    match atom(p, i) {
        None => None,
        Some((items, j)) => {
            if j < p.len() && p[j] == 0x7b {
                match rep_count(p, j + 1) {
                    None => None,
                    Some((n, k)) => {
                        let mut out: Vec<ByteClass> = Vec::new();
                        let mut q: u16 = 0;
                        proof {
                            assert(classes_of(out@) =~= Seq::<Seq<bool>>::empty());
                        }
                        while q < n
                            invariant
                                q <= n,
                                forall|q2: int| 0 <= q2 < items@.len() ==> class_wf(
                                    #[trigger] items@[q2]@,
                                ),
                                forall|q2: int| 0 <= q2 < out@.len() ==> class_wf(
                                    #[trigger] out@[q2]@,
                                ),
                                classes_of(out@) == repeat_items(classes_of(items@), q as int),
                            decreases n - q,
                        {
                            append_items(&mut out, &items);
                            q += 1;
                        }
                        Some((out, k))
                    },
                }
            } else {
                Some((items, j))
            }
        },
    }
}

/// The items of a parenthesised group, starting right after `(`, up to
/// and including the closing `)`.
fn group_items(p: &[u8], start: usize) -> (r: Option<(Vec<ByteClass>, usize)>)
    requires
        start <= p@.len(),
    ensures
        match r {
            Some((items, j)) => spec_group_items(p@, start as int, Seq::empty()) == Some(
                (classes_of(items@), j as int),
            ) && (forall|q: int| 0 <= q < items@.len() ==> class_wf(#[trigger] items@[q]@))
                && start < j <= p@.len(),
            None => spec_group_items(p@, start as int, Seq::empty()) is None,
        },
    decreases p@.len() - start, 2int,
{
    let mut acc: Vec<ByteClass> = Vec::new();
    let mut i = start;
    proof {
        assert(classes_of(acc@) =~= Seq::<Seq<bool>>::empty());
    }
    loop
        invariant
            start <= i <= p@.len(),
            forall|q: int| 0 <= q < acc@.len() ==> class_wf(#[trigger] acc@[q]@),
            spec_group_items(p@, start as int, Seq::empty()) == spec_group_items(
                p@,
                i as int,
                classes_of(acc@),
            ),
        decreases p@.len() - i,
    {
        if i < p.len() && p[i] == 0x29 {
            return Some((acc, i + 1));
        }
        match element(p, i) {
            None => {
                return None;
            },
            Some((items, j)) => {
                let ghost acc_old = classes_of(acc@);
                append_items(&mut acc, &items);
                proof {
                    assert(spec_group_items(p@, i as int, acc_old) == spec_group_items(
                        p@,
                        j as int,
                        classes_of(acc@),
                    ));
                }
                i = j;
            },
        }
    }
}

/// An exact repetition count starting right after `{`.
fn rep_count(p: &[u8], i: usize) -> (r: Option<(u16, usize)>)
    requires
        i <= p@.len(),
    ensures
        match r {
            Some((n, j)) => spec_rep_count(p@, i as int) == Some((n as int, j as int)) && i < j
                <= p@.len() && n <= 999,
            None => spec_rep_count(p@, i as int) is None,
        },
{
    if i < p.len() && is_digit(p[i]) {
        let d0 = (p[i] - 0x30) as u16;
        if i + 1 < p.len() && p[i + 1] == 0x7d {
            Some((d0, i + 2))
        } else if i + 1 < p.len() && is_digit(p[i + 1]) {
            let d1 = (p[i + 1] - 0x30) as u16;
            if i + 2 < p.len() && p[i + 2] == 0x7d {
                Some((d0 * 10 + d1, i + 3))
            } else if i + 2 < p.len() && is_digit(p[i + 2]) {
                let d2 = (p[i + 2] - 0x30) as u16;
                if i + 3 < p.len() && p[i + 3] == 0x7d {
                    Some((d0 * 100 + d1 * 10 + d2, i + 4))
                } else {
                    None
                }
            } else {
                None
            }
        } else {
            None
        }
    } else {
        None
    }
}

/// Parses a whole pattern into its item list, or reports that the pattern
/// is malformed by returning nothing.
pub fn parse_pattern(p: &[u8]) -> (r: Option<Vec<ByteClass>>)
    ensures
        r is Some <==> pattern_valid(p@),
        match r {
            Some(items) => {
                &&& spec_pattern_items(p@) == Some(classes_of(items@))
                &&& forall|j: int| 0 <= j < items@.len() ==> class_wf(#[trigger] items@[j]@)
            },
            None => !pattern_valid(p@),
        },
{
    let mut items: Vec<ByteClass> = Vec::new();
    let mut i: usize = 0;
    proof {
        assert(classes_of(items@) =~= Seq::<Seq<bool>>::empty());
    }
    loop
        invariant
            i <= p@.len(),
            spec_items_from(p@, 0, Seq::empty()) == spec_items_from(
                p@,
                i as int,
                classes_of(items@),
            ),
            forall|j: int| 0 <= j < items@.len() ==> class_wf(#[trigger] items@[j]@),
        decreases p@.len() - i,
    {
        if i >= p.len() {
            return Some(items);
        }
        match element(p, i) {
            None => {
                return None;
            },
            Some((els, j)) => {
                let ghost acc_old = classes_of(items@);
                let ghost i_old = i as int;
                append_items(&mut items, &els);
                proof {
                    assert(spec_items_from(p@, i_old, acc_old) == spec_items_from(
                        p@,
                        j as int,
                        classes_of(items@),
                    ));
                }
                i = j;
            },
        }
    }
}

} // verus!
