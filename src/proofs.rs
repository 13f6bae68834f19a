//! Lemmas about the model.
use vstd::prelude::*;
use crate::model::{drain_front, drain_back, complement, delims, first_where, last_where, pieces, run_before, is_sep, seps, words, lead, front_step, back_step, last_end, exhausted};

verus! {

/// `first_where` finds the first index where `p` holds.
pub proof fn lemma_first_where(p: spec_fn(int) -> bool, k: int, m: int)
    requires
        k <= m,
    ensures
        k <= first_where(p, k, m) <= m,
        first_where(p, k, m) < m ==> p(first_where(p, k, m)),
        forall|i: int| k <= i < first_where(p, k, m) ==> !#[trigger] p(i),
    decreases m - k,
{
    if k < m && !p(k) {
        lemma_first_where(p, k + 1, m);
    }
}

/// The first index where `p` holds is the only one with nothing before it.
pub proof fn lemma_first_where_eq(p: spec_fn(int) -> bool, k: int, m: int, r: int)
    requires
        k <= r <= m,
        r < m ==> p(r),
        forall|i: int| k <= i < r ==> !#[trigger] p(i),
    ensures
        first_where(p, k, m) == r,
    decreases r - k,
{
    if k < r {
        lemma_first_where_eq(p, k + 1, m, r);
    }
}

/// `last_where` finds one past the last index where `p` holds.
pub proof fn lemma_last_where(p: spec_fn(int) -> bool, m: int)
    requires
        0 <= m,
    ensures
        0 <= last_where(p, m) <= m,
        last_where(p, m) > 0 ==> p(last_where(p, m) - 1),
        forall|i: int| last_where(p, m) <= i < m ==> !#[trigger] p(i),
    decreases m,
{
    if m > 0 && !p(m - 1) {
        lemma_last_where(p, m - 1);
    }
}

/// One past the last index where `p` holds is the only one with nothing after it.
pub proof fn lemma_last_where_eq(p: spec_fn(int) -> bool, m: int, r: int)
    requires
        0 <= r <= m,
        r > 0 ==> p(r - 1),
        forall|i: int| r <= i < m ==> !#[trigger] p(i),
    ensures
        last_where(p, m) == r,
    decreases m - r,
{
    if r < m {
        lemma_last_where_eq(p, m - 1, r);
    }
}

/// Searching a shifted predicate gives a shifted index.
pub proof fn lemma_first_where_shift(p: spec_fn(int) -> bool, q: spec_fn(int) -> bool, k: int, m: int, o: int)
    requires
        k <= m,
        forall|i: int| k <= i < m ==> #[trigger] p(i) == q(i + o),
    ensures
        first_where(p, k, m) + o == first_where(q, k + o, m + o),
    decreases m - k,
{
    if k < m {
        assert(p(k) == q(k + o));
        if !p(k) {
            lemma_first_where_shift(p, q, k + 1, m, o);
        }
    }
}

/// `pieces` depends only on the bytes and separators of its range.
pub proof fn lemma_pieces_shift(
    s1: Seq<u8>,
    sep1: spec_fn(int) -> bool,
    s2: Seq<u8>,
    sep2: spec_fn(int) -> bool,
    k: int,
    m: int,
    o: int,
)
    requires
        0 <= k <= m <= s1.len(),
        0 <= k + o,
        m + o <= s2.len(),
        forall|i: int| k <= i < m ==> #[trigger] s1[i] == s2[i + o],
        forall|i: int| k <= i < m ==> #[trigger] sep1(i) == sep2(i + o),
    ensures
        pieces(s1, sep1, k, m) == pieces(s2, sep2, k + o, m + o),
    decreases m - k,
{
    let n1 = complement(sep1);
    let n2 = complement(sep2);
    assert forall|i: int| k <= i < m implies #[trigger] n1(i) == n2(i + o) by {
        assert(sep1(i) == sep2(i + o));
    }
    lemma_first_where_shift(n1, n2, k, m, o);
    lemma_first_where(n1, k, m);
    let b = first_where(n1, k, m);
    if b < m {
        lemma_first_where_shift(sep1, sep2, b, m, o);
        lemma_first_where(sep1, b, m);
        let t = first_where(sep1, b, m);
        lemma_pieces_shift(s1, sep1, s2, sep2, t, m, o);
        assert(s1.subrange(b, t) =~= s2.subrange(b + o, t + o));
    }
}

/// Cutting a range where no piece is split divides the pieces.
pub proof fn lemma_pieces_split(s: Seq<u8>, sep: spec_fn(int) -> bool, k: int, p: int, m: int)
    requires
        0 <= k <= p <= m <= s.len(),
        p == k || p == m || sep(p - 1) || sep(p),
    ensures
        pieces(s, sep, k, m) == pieces(s, sep, k, p) + pieces(s, sep, p, m),
    decreases m - k,
{
    let ns = complement(sep);
    if p == k {
        assert(pieces(s, sep, k, p) == Seq::<Seq<u8>>::empty());
        assert(pieces(s, sep, k, m) =~= pieces(s, sep, k, p) + pieces(s, sep, p, m));
    } else if p == m {
        assert(pieces(s, sep, p, m) == Seq::<Seq<u8>>::empty());
        assert(pieces(s, sep, k, m) =~= pieces(s, sep, k, p) + pieces(s, sep, p, m));
    } else {
        lemma_first_where(ns, k, m);
        let b = first_where(ns, k, m);
        if b >= p {
            lemma_first_where_eq(ns, k, p, p);
            lemma_first_where_eq(ns, p, m, b);
            assert(pieces(s, sep, k, p) == Seq::<Seq<u8>>::empty());
            assert(pieces(s, sep, k, m) =~= pieces(s, sep, k, p) + pieces(s, sep, p, m));
        } else {
            lemma_first_where(sep, b, m);
            let t = first_where(sep, b, m);
            if t > p {
                assert(!sep(p - 1));
                assert(!sep(p));
            }
            lemma_first_where_eq(sep, b, p, t);
            lemma_first_where_eq(ns, k, p, b);
            lemma_pieces_split(s, sep, t, p, m);
            let w = seq![s.subrange(b, t)];
            assert(pieces(s, sep, k, m) == w + pieces(s, sep, t, m));
            assert(pieces(s, sep, k, p) == w + pieces(s, sep, t, p));
            assert(w + pieces(s, sep, t, m) =~= (w + pieces(s, sep, t, p)) + pieces(s, sep, p, m));
        }
    }
}

/// A run of escapes is the same in a prefix of `s`.
pub proof fn lemma_run_prefix(s: Seq<u8>, e: u8, p: int, i: int)
    requires
        0 <= i <= p <= s.len(),
    ensures
        run_before(s.subrange(0, p), e, i) == run_before(s, e, i),
    decreases i,
{
    if i > 0 {
        lemma_run_prefix(s, e, p, i - 1);
    }
}

/// A run of escapes is the same in a suffix of `s` that it cannot reach past.
pub proof fn lemma_run_suffix(s: Seq<u8>, e: u8, c: int, i: int)
    requires
        0 <= c,
        0 <= i,
        c + i <= s.len(),
        (c == 0 || s[c - 1] != e) || (i > 0 && s[c] != e),
    ensures
        run_before(s.subrange(c, s.len() as int), e, i) == run_before(s, e, c + i),
    decreases i,
{
    let u = s.subrange(c, s.len() as int);
    if i > 0 {
        assert(u[i - 1] == s[c + i - 1]);
        if s[c + i - 1] == e {
            lemma_run_suffix(s, e, c, i - 1);
        }
    }
}

/// A prefix of `s` has the separators of `s`.
pub proof fn lemma_words_prefix(s: Seq<u8>, d: u8, e: u8, p: int)
    requires
        0 <= p <= s.len(),
    ensures
        forall|i: int| 0 <= i < p ==> is_sep(s.subrange(0, p), d, e, i) == is_sep(s, d, e, i),
        words(s.subrange(0, p), d, e) == pieces(s, seps(s, d, e), 0, p),
{
    let u = s.subrange(0, p);
    assert forall|i: int| 0 <= i < p implies is_sep(u, d, e, i) == is_sep(s, d, e, i) by {
        lemma_run_prefix(s, e, p, i);
    }
    lemma_pieces_shift(u, seps(u, d, e), s, seps(s, d, e), 0, p, 0);
}

/// A suffix of `s` that starts at a separator, or after a byte other than
/// the escape, has the separators of `s`.
pub proof fn lemma_words_suffix(s: Seq<u8>, d: u8, e: u8, c: int)
    requires
        d != e,
        0 <= c <= s.len(),
        c == 0 || c == s.len() || s[c - 1] != e || is_sep(s, d, e, c),
    ensures
        forall|i: int| 0 <= i < s.len() - c ==>
            is_sep(s.subrange(c, s.len() as int), d, e, i) == is_sep(s, d, e, c + i),
        words(s.subrange(c, s.len() as int), d, e) == pieces(s, seps(s, d, e), c, s.len() as int),
{
    let n = s.len() as int;
    let u = s.subrange(c, n);
    assert forall|i: int| 0 <= i < n - c implies is_sep(u, d, e, i) == is_sep(s, d, e, c + i) by {
        if c == 0 || s[c - 1] != e || i > 0 {
            lemma_run_suffix(s, e, c, i);
        }
    }
    lemma_pieces_shift(u, seps(u, d, e), s, seps(s, d, e), 0, n - c, c);
}

/// A pull from the front takes the first word.
pub proof fn lemma_front_step(s: Seq<u8>, d: u8, e: u8)
    requires
        d != e,
    ensures
        front_step(s, d, e).0 is None ==> words(s, d, e).len() == 0 && words(front_step(s, d, e).1, d, e).len() == 0,
        front_step(s, d, e).0 matches Some(w) ==> words(s, d, e) == seq![w] + words(front_step(s, d, e).1, d, e),
{
    let n = s.len() as int;
    let sp = seps(s, d, e);
    let nd = complement(delims(s, d));
    lemma_first_where(nd, 0, n);
    let b = lead(s, d);
    assert forall|i: int| 0 <= i < b implies #[trigger] is_sep(s, d, e, i) by {
        assert(!nd(i));
        if i > 0 {
            assert(!nd(i - 1));
        }
    }
    lemma_first_where_eq(complement(sp), 0, n, b);
    let rest = s.subrange(b, n);
    if b < n {
        if b > 0 {
            assert(!nd(b - 1));
        }
        lemma_words_suffix(s, d, e, b);
        let sr = seps(rest, d, e);
        lemma_first_where_shift(sr, sp, 0, n - b, b);
        lemma_first_where(sp, b, n);
        let t = first_where(sr, 0, n - b);
        lemma_words_suffix(s, d, e, b + t);
        assert(rest.subrange(0, t) =~= s.subrange(b, b + t));
        assert(rest.subrange(t, rest.len() as int) =~= s.subrange(b + t, n));
    } else {
        assert(words(rest, d, e) == Seq::<Seq<u8>>::empty());
    }
}

/// A pull from the back takes the last word.
pub proof fn lemma_back_step(s: Seq<u8>, d: u8, e: u8)
    requires
        d != e,
    ensures
        back_step(s, d, e).0 is None ==> words(s, d, e).len() == 0,
        back_step(s, d, e).0 matches Some(w) ==> words(s, d, e) == words(back_step(s, d, e).1, d, e).push(w),
{
    let n = s.len() as int;
    let sp = seps(s, d, e);
    let ns = complement(sp);
    if exhausted(s, d) {
        assert forall|i: int| 0 <= i < n implies #[trigger] is_sep(s, d, e, i) by {
            if i > 0 {
                assert(s[i - 1] == d);
            }
        }
        lemma_first_where_eq(ns, 0, n, n);
    } else {
        let i0 = choose|i: int| 0 <= i < n && s[i] != d;
        let end = last_end(s, d, e);
        lemma_last_where(ns, n);
        assert(ns(i0));
        if end < n {
            assert(!ns(end));
        }
        let bow = last_where(sp, end);
        lemma_last_where(sp, end);
        assert(ns(end - 1));
        lemma_pieces_split(s, sp, 0, end, n);
        lemma_first_where_eq(ns, end, n, n);
        lemma_pieces_split(s, sp, 0, bow, end);
        lemma_first_where_eq(ns, bow, end, bow);
        lemma_first_where_eq(sp, bow, end, end);
        lemma_first_where_eq(ns, end, end, end);
        lemma_words_prefix(s, d, e, bow);
        assert(pieces(s, sp, end, end) =~= Seq::<Seq<u8>>::empty());
        assert(pieces(s, sp, bow, end) =~= seq![s.subrange(bow, end)]);
        assert(words(s, d, e) =~= pieces(s, sp, 0, bow).push(s.subrange(bow, end)));
    }
}

/// A pull from the front that finds a word leaves less behind.
pub proof fn lemma_front_shrinks(s: Seq<u8>, d: u8, e: u8)
    ensures
        front_step(s, d, e).0 matches Some(w) ==> w.len() > 0 && front_step(s, d, e).1.len() < s.len(),
        front_step(s, d, e).0 is None <==> exhausted(s, d),
        front_step(s, d, e).0 is None ==> front_step(s, d, e).1.len() == 0,
{
    let n = s.len() as int;
    let nd = complement(delims(s, d));
    lemma_first_where(nd, 0, n);
    let b = lead(s, d);
    let rest = s.subrange(b, n);
    if b < n {
        assert(nd(b));
        let sr = seps(rest, d, e);
        lemma_first_where(sr, 0, n - b);
        assert(!sr(0));
        assert(!exhausted(s, d));
    } else {
        assert forall|i: int| 0 <= i < n implies s[i] == d by {
            assert(!nd(i));
        }
    }
}

/// A pull from the back that finds a word leaves less behind.
pub proof fn lemma_back_shrinks(s: Seq<u8>, d: u8, e: u8)
    ensures
        back_step(s, d, e).0 matches Some(w) ==> w.len() > 0 && back_step(s, d, e).1.len() < s.len(),
        back_step(s, d, e).0 is None <==> exhausted(s, d),
{
    let n = s.len() as int;
    if !exhausted(s, d) {
        let sp = seps(s, d, e);
        let i0 = choose|i: int| 0 <= i < n && s[i] != d;
        let end = last_end(s, d, e);
        let ns = complement(sp);
        lemma_last_where(ns, n);
        assert(ns(i0));
        lemma_last_where(sp, end);
        assert(ns(end - 1));
    }
}

/// Pulling from the front until nothing is left gives the words.
pub proof fn lemma_drain_front(s: Seq<u8>, d: u8, e: u8)
    requires
        d != e,
    ensures
        drain_front(s, d, e) == words(s, d, e),
    decreases s.len(),
{
    lemma_front_shrinks(s, d, e);
    lemma_front_step(s, d, e);
    if let Some(w) = front_step(s, d, e).0 {
        lemma_drain_front(front_step(s, d, e).1, d, e);
    } else {
        assert(words(s, d, e) =~= Seq::<Seq<u8>>::empty());
    }
}

/// Pulling from the back until nothing is left gives the words in reverse.
pub proof fn lemma_drain_back(s: Seq<u8>, d: u8, e: u8)
    requires
        d != e,
    ensures
        drain_back(s, d, e) == words(s, d, e).reverse(),
    decreases s.len(),
{
    lemma_back_shrinks(s, d, e);
    lemma_back_step(s, d, e);
    if let Some(w) = back_step(s, d, e).0 {
        let rest = back_step(s, d, e).1;
        lemma_drain_back(rest, d, e);
        assert(seq![w] + words(rest, d, e).reverse() =~= words(rest, d, e).push(w).reverse());
    } else {
        assert(words(s, d, e).reverse() =~= Seq::<Seq<u8>>::empty());
    }
}

} // verus!
