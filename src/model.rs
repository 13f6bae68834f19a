//! The mathematical model of word splitting.
use vstd::prelude::*;

verus! {

/// The number of consecutive `escape` bytes that end just before index `i`.
pub open spec fn run_before(s: Seq<u8>, escape: u8, i: int) -> nat
    decreases i,
{
    if i <= 0 || i > s.len() || s[i - 1] != escape {
        0
    } else {
        1 + run_before(s, escape, i - 1)
    }
}

/// Index `i` holds a delimiter that separates words: one preceded by an even
/// run of escape bytes (an odd run escapes it).
pub open spec fn is_sep(s: Seq<u8>, delim: u8, escape: u8, i: int) -> bool {
    0 <= i < s.len() && s[i] == delim && run_before(s, escape, i) % 2 == 0
}

/// The separator positions of `s` as a predicate on indices.
pub open spec fn seps(s: Seq<u8>, delim: u8, escape: u8) -> spec_fn(int) -> bool {
    |i: int| is_sep(s, delim, escape, i)
}

/// The indices where `p` does not hold.
pub open spec fn complement(p: spec_fn(int) -> bool) -> spec_fn(int) -> bool {
    |i: int| !p(i)
}

/// The positions of `s` that hold the delimiter byte.
pub open spec fn delims(s: Seq<u8>, delim: u8) -> spec_fn(int) -> bool {
    |i: int| s[i] == delim
}

/// The first index in `k..m` where `p` holds, or `m` when there is none.
pub open spec fn first_where(p: spec_fn(int) -> bool, k: int, m: int) -> int
    decreases m - k,
{
    if k >= m {
        m
    } else if p(k) {
        k
    } else {
        first_where(p, k + 1, m)
    }
}

/// One past the last index in `0..m` where `p` holds, or `0` when there is none.
pub open spec fn last_where(p: spec_fn(int) -> bool, m: int) -> int
    decreases m,
{
    if m <= 0 {
        0
    } else if p(m - 1) {
        m
    } else {
        last_where(p, m - 1)
    }
}

/// The maximal runs of indices in `k..m` where `sep` does not hold, as
/// subranges of `s`, from left to right.
pub open spec fn pieces(s: Seq<u8>, sep: spec_fn(int) -> bool, k: int, m: int) -> Seq<Seq<u8>>
    decreases m - k via pieces_decreases
{
    let b = first_where(complement(sep), k, m);
    if b >= m {
        seq![]
    } else {
        let t = first_where(sep, b, m);
        seq![s.subrange(b, t)] + pieces(s, sep, t, m)
    }
}

#[via_fn]
proof fn pieces_decreases(s: Seq<u8>, sep: spec_fn(int) -> bool, k: int, m: int) {
    let b = first_where(complement(sep), k, m);
    if b < m {
        crate::proofs::lemma_first_where(complement(sep), k, m);
        crate::proofs::lemma_first_where(sep, b + 1, m);
        assert(first_where(sep, b, m) == first_where(sep, b + 1, m));
    }
}

/// The words of `s`: the maximal runs of bytes that are not separators.
pub open spec fn words(s: Seq<u8>, delim: u8, escape: u8) -> Seq<Seq<u8>> {
    pieces(s, seps(s, delim, escape), 0, s.len() as int)
}

/// The words of `s` split at every delimiter byte, escapes ignored.
pub open spec fn plain_split(s: Seq<u8>, delim: u8) -> Seq<Seq<u8>> {
    pieces(s, delims(s, delim), 0, s.len() as int)
}

/// Every byte of `s` is the delimiter: no word is left.
pub open spec fn exhausted(s: Seq<u8>, delim: u8) -> bool {
    forall|i: int| 0 <= i < s.len() ==> s[i] == delim
}

/// The number of leading delimiter bytes of `s`.
pub open spec fn lead(s: Seq<u8>, delim: u8) -> int {
    first_where(complement(delims(s, delim)), 0, s.len() as int)
}

/// A pull from the front: skip the leading delimiters, then take bytes up to
/// the first separator. Gives the word, if any, and what remains after it.
pub open spec fn front_step(s: Seq<u8>, delim: u8, escape: u8) -> (Option<Seq<u8>>, Seq<u8>) {
    let rest = s.subrange(lead(s, delim), s.len() as int);
    if rest.len() == 0 {
        (None, rest)
    } else {
        let t = first_where(seps(rest, delim, escape), 0, rest.len() as int);
        (Some(rest.subrange(0, t)), rest.subrange(t, rest.len() as int))
    }
}

/// One past the last byte of `s` that is not a separator: where the last word ends.
pub open spec fn last_end(s: Seq<u8>, delim: u8, escape: u8) -> int {
    last_where(complement(seps(s, delim, escape)), s.len() as int)
}

/// A pull from the back: the last word, and what remains before it.
pub open spec fn back_step(s: Seq<u8>, delim: u8, escape: u8) -> (Option<Seq<u8>>, Seq<u8>) {
    if exhausted(s, delim) {
        (None, s)
    } else {
        let end = last_end(s, delim, escape);
        let bow = last_where(seps(s, delim, escape), end);
        (Some(s.subrange(bow, end)), s.subrange(0, bow))
    }
}

/// The words that pull after pull from the front hands out, in order.
pub open spec fn drain_front(s: Seq<u8>, delim: u8, escape: u8) -> Seq<Seq<u8>>
    decreases s.len() via drain_front_decreases
{
    match front_step(s, delim, escape).0 {
        Some(w) => seq![w] + drain_front(front_step(s, delim, escape).1, delim, escape),
        None => seq![],
    }
}

#[via_fn]
proof fn drain_front_decreases(s: Seq<u8>, delim: u8, escape: u8) {
    crate::proofs::lemma_front_shrinks(s, delim, escape);
}

/// The words that pull after pull from the back hands out, in the order pulled.
pub open spec fn drain_back(s: Seq<u8>, delim: u8, escape: u8) -> Seq<Seq<u8>>
    decreases s.len() via drain_back_decreases
{
    match back_step(s, delim, escape).0 {
        Some(w) => seq![w] + drain_back(back_step(s, delim, escape).1, delim, escape),
        None => seq![],
    }
}

#[via_fn]
proof fn drain_back_decreases(s: Seq<u8>, delim: u8, escape: u8) {
    crate::proofs::lemma_back_shrinks(s, delim, escape);
}

/// Pulls taken in the order of `turns`, `true` from the front and `false`
/// from the back: the words from the front in the order pulled, the words
/// from the back in the order pulled, and the bytes that remain.
pub open spec fn interleave(s: Seq<u8>, delim: u8, escape: u8, turns: Seq<bool>) -> (
    Seq<Seq<u8>>,
    Seq<Seq<u8>>,
    Seq<u8>,
)
    decreases turns.len(),
{
    if turns.len() == 0 {
        (seq![], seq![], s)
    } else {
        let prev = interleave(s, delim, escape, turns.drop_last());
        if turns.last() {
            let step = front_step(prev.2, delim, escape);
            match step.0 {
                Some(w) => (prev.0.push(w), prev.1, step.1),
                None => (prev.0, prev.1, step.1),
            }
        } else {
            let step = back_step(prev.2, delim, escape);
            match step.0 {
                Some(w) => (prev.0, prev.1.push(w), step.1),
                None => (prev.0, prev.1, step.1),
            }
        }
    }
}

} // verus!
