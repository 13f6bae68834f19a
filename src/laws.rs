//! What holds of every buffer: the laws of splitting.
use vstd::prelude::*;
use crate::model::{
    complement, delims, drain_back, drain_front, exhausted, first_where, front_step, back_step,
    interleave, is_sep, lead, pieces, plain_split, run_before, seps, words,
};
use crate::proofs::{
    lemma_back_shrinks, lemma_back_step, lemma_drain_back, lemma_drain_front,
    lemma_first_where, lemma_first_where_eq, lemma_front_shrinks, lemma_front_step,
    lemma_pieces_shift, lemma_words_suffix,
};

verus! {

/// Without escape bytes in the buffer, pulling from the front splits at every
/// delimiter byte, runs of delimiters giving no empty words.
pub proof fn lemma_no_escape_is_plain_split(s: Seq<u8>, delim: u8, escape: u8)
    requires
        forall|i: int| 0 <= i < s.len() ==> s[i] != escape,
    ensures
        drain_front(s, delim, escape) == plain_split(s, delim),
{
    let n = s.len() as int;
    assert forall|i: int| 0 <= i < n implies #[trigger] is_sep(s, delim, escape, i) == (s[i]
        == delim) by {
        if i > 0 {
            assert(s[i - 1] != escape);
        }
    }
    if delim != escape {
        lemma_drain_front(s, delim, escape);
        assert forall|i: int| 0 <= i < n implies #[trigger] seps(s, delim, escape)(i) == delims(
            s,
            delim,
        )(i) by {}
        lemma_pieces_shift(s, seps(s, delim, escape), s, delims(s, delim), 0, n, 0);
    } else {
        // No byte is the delimiter either: the whole buffer is one word.
        let dl = delims(s, delim);
        lemma_first_where_eq(complement(dl), 0, n, 0);
        lemma_first_where_eq(dl, 0, n, n);
        lemma_first_where_eq(complement(dl), n, n, n);
        lemma_first_where_eq(seps(s, delim, escape), 0, n, n);
        assert(s.subrange(0, n) =~= s);
        let rest = front_step(s, delim, escape).1;
        assert(rest.len() == 0);
        lemma_front_shrinks(rest, delim, escape);
        if n == 0 {
            assert(plain_split(s, delim) =~= Seq::<Seq<u8>>::empty());
        } else {
            assert(drain_front(rest, delim, escape) =~= Seq::<Seq<u8>>::empty());
            assert(pieces(s, dl, n, n) =~= Seq::<Seq<u8>>::empty());
            assert(plain_split(s, delim) =~= seq![s]);
        }
    }
}

/// Pulling only from the front gives the words that pulling only from the
/// back gives, in reverse order.
pub proof fn lemma_front_is_reversed_back(s: Seq<u8>, delim: u8, escape: u8)
    requires
        delim != escape,
    ensures
        drain_front(s, delim, escape) == drain_back(s, delim, escape).reverse(),
{
    lemma_drain_front(s, delim, escape);
    lemma_drain_back(s, delim, escape);
    assert(words(s, delim, escape).reverse().reverse() =~= words(s, delim, escape));
}

proof fn lemma_interleave_words(s: Seq<u8>, d: u8, e: u8, turns: Seq<bool>)
    requires
        d != e,
    ensures
        interleave(s, d, e, turns).0 + words(interleave(s, d, e, turns).2, d, e) + interleave(
            s,
            d,
            e,
            turns,
        ).1.reverse() == words(s, d, e),
    decreases turns.len(),
{
    if turns.len() > 0 {
        let prev = interleave(s, d, e, turns.drop_last());
        lemma_interleave_words(s, d, e, turns.drop_last());
        let (f, b, r) = prev;
        if turns.last() {
            lemma_front_step(r, d, e);
            let step = front_step(r, d, e);
            if let Some(w) = step.0 {
                assert(f.push(w) + words(step.1, d, e) + b.reverse() =~= f + words(r, d, e)
                    + b.reverse());
            } else {
                assert(words(step.1, d, e) =~= words(r, d, e));
            }
        } else {
            lemma_back_step(r, d, e);
            lemma_back_shrinks(r, d, e);
            let step = back_step(r, d, e);
            if let Some(w) = step.0 {
                assert(f + words(step.1, d, e) + b.push(w).reverse() =~= f + words(r, d, e)
                    + b.reverse());
            }
        }
    }
}

/// However pulls from the two ends are interleaved, the words pulled from the
/// front, then the words still to come, then the words pulled from the back
/// in reverse order, are the words that pulling only from the front gives:
/// the boundaries do not depend on the order of the pulls.
pub proof fn lemma_interleaving_keeps_boundaries(
    s: Seq<u8>,
    delim: u8,
    escape: u8,
    turns: Seq<bool>,
)
    requires
        delim != escape,
    ensures
        ({
            let (f, b, r) = interleave(s, delim, escape, turns);
            f + drain_front(r, delim, escape) + b.reverse() == drain_front(s, delim, escape)
        }),
{
    let (f, b, r) = interleave(s, delim, escape, turns);
    lemma_interleave_words(s, delim, escape, turns);
    lemma_drain_front(r, delim, escape);
    lemma_drain_front(s, delim, escape);
}

/// A word is handed out verbatim: it is the run of bytes after the leading
/// delimiters up to the first separator. Escape bytes, and the delimiters
/// they escape, are not separators and stay in the word.
pub proof fn lemma_word_is_verbatim(s: Seq<u8>, delim: u8, escape: u8)
    requires
        delim != escape,
    ensures
        front_step(s, delim, escape).0 matches Some(w) ==> {
            let b = lead(s, delim);
            let t = b + w.len();
            &&& t <= s.len()
            &&& w == s.subrange(b, t)
            &&& forall|i: int| b <= i < t ==> !#[trigger] is_sep(s, delim, escape, i)
            &&& t == s.len() || is_sep(s, delim, escape, t)
        },
{
    let n = s.len() as int;
    lemma_first_where(complement(delims(s, delim)), 0, n);
    let b = lead(s, delim);
    if b < n {
        if b > 0 {
            assert(!complement(delims(s, delim))(b - 1));
        }
        lemma_words_suffix(s, delim, escape, b);
        let rest = s.subrange(b, n);
        let sr = seps(rest, delim, escape);
        lemma_first_where(sr, 0, n - b);
        let t = first_where(sr, 0, n - b);
        assert(rest.subrange(0, t) =~= s.subrange(b, b + t));
        assert forall|i: int| b <= i < b + t implies !#[trigger] is_sep(s, delim, escape, i) by {
            assert(!sr(i - b));
        }
        if b + t < n {
            assert(sr(t));
        }
    }
}

/// Two escape bytes just before a delimiter cancel: the delimiter separates
/// exactly when the run of escapes before the pair leaves it unescaped.
pub proof fn lemma_double_escape_cancels(s: Seq<u8>, delim: u8, escape: u8, i: int)
    requires
        2 <= i < s.len(),
        s[i] == delim,
        s[i - 1] == escape,
        s[i - 2] == escape,
    ensures
        is_sep(s, delim, escape, i) <==> run_before(s, escape, i - 2) % 2 == 0,
        i == 2 || s[i - 3] != escape ==> is_sep(s, delim, escape, i),
{
    assert(run_before(s, escape, i - 1) == 1 + run_before(s, escape, i - 2));
    assert(run_before(s, escape, i) == 1 + run_before(s, escape, i - 1));
}

/// No pull hands out an empty word, whatever delimiters lead or trail.
pub proof fn lemma_no_empty_words(s: Seq<u8>, delim: u8, escape: u8)
    ensures
        forall|j: int| 0 <= j < drain_front(s, delim, escape).len() ==> #[trigger] drain_front(
            s,
            delim,
            escape,
        )[j].len() > 0,
        forall|j: int| 0 <= j < drain_back(s, delim, escape).len() ==> #[trigger] drain_back(
            s,
            delim,
            escape,
        )[j].len() > 0,
    decreases s.len(),
{
    lemma_front_shrinks(s, delim, escape);
    lemma_back_shrinks(s, delim, escape);
    let fs = front_step(s, delim, escape);
    let bs = back_step(s, delim, escape);
    if fs.0 is Some {
        lemma_no_empty_words(fs.1, delim, escape);
    }
    if bs.0 is Some {
        lemma_no_empty_words(bs.1, delim, escape);
    }
    assert forall|j: int| 0 <= j < drain_front(s, delim, escape).len() implies #[trigger] drain_front(
        s,
        delim,
        escape,
    )[j].len() > 0 by {
        if j > 0 {
            assert(drain_front(s, delim, escape)[j] == drain_front(fs.1, delim, escape)[j - 1]);
        }
    }
    assert forall|j: int| 0 <= j < drain_back(s, delim, escape).len() implies #[trigger] drain_back(
        s,
        delim,
        escape,
    )[j].len() > 0 by {
        if j > 0 {
            assert(drain_back(s, delim, escape)[j] == drain_back(bs.1, delim, escape)[j - 1]);
        }
    }
}

/// Once a pull from either end finds nothing, every later pull from either
/// end finds nothing too.
pub proof fn lemma_exhaustion_is_final(s: Seq<u8>, delim: u8, escape: u8)
    ensures
        front_step(s, delim, escape).0 is None ==> {
            let r = front_step(s, delim, escape).1;
            &&& exhausted(r, delim)
            &&& front_step(r, delim, escape).0 is None
            &&& back_step(r, delim, escape).0 is None
        },
        back_step(s, delim, escape).0 is None ==> {
            let r = back_step(s, delim, escape).1;
            &&& exhausted(r, delim)
            &&& front_step(r, delim, escape).0 is None
            &&& back_step(r, delim, escape).0 is None
        },
        exhausted(s, delim) ==> exhausted(front_step(s, delim, escape).1, delim) && exhausted(
            back_step(s, delim, escape).1,
            delim,
        ),
{
    lemma_front_shrinks(s, delim, escape);
    lemma_back_shrinks(s, delim, escape);
    let fr = front_step(s, delim, escape).1;
    let br = back_step(s, delim, escape).1;
    lemma_front_shrinks(fr, delim, escape);
    lemma_back_shrinks(fr, delim, escape);
    lemma_front_shrinks(br, delim, escape);
    lemma_back_shrinks(br, delim, escape);
}

} // verus!
