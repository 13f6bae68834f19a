//! The scanner: a cursor over a borrowed byte buffer that hands out words
//! from either end.
use vstd::prelude::*;
use vstd::slice::slice_subrange;
use crate::model::{
    back_step, complement, delims, exhausted, first_where, front_step, is_sep, last_end,
    last_where, lead, run_before, seps, words,
};
use crate::proofs::{
    lemma_back_shrinks, lemma_back_step, lemma_first_where_eq, lemma_front_shrinks,
    lemma_front_step, lemma_last_where, lemma_last_where_eq, lemma_words_prefix,
};

verus! {

/// Whether two indices have the same parity: for indices `j <= i` bounding a
/// run of escape bytes `j..=i`, the run has odd length exactly when they do.
fn iso_parity(i: usize, j: usize) -> (r: bool)
    ensures
        r <==> (i as int - j as int) % 2 == 0,
{
    i % 2 == j % 2
}

/// A scanner over `slice` that splits on `delim`, with `escape` as the escape byte.
pub fn iter(slice: &[u8], delim: u8, escape: u8) -> (r: Iter<'_>)
    ensures
        r@ == slice@,
        r.delim() == delim,
        r.escape() == escape,
{
    Iter::from_slice(slice, delim, escape)
}

/// The words of a byte buffer, pulled from the front or from the back.
///
/// The scanner holds the part of the buffer not yet consumed. Words are the
/// maximal runs of bytes between separators, where a separator is a
/// delimiter byte preceded by an even run of escape bytes. Escape bytes and
/// escaped delimiters stay in the words as they are.
///
/// When the delimiter and the escape byte are equal, escaping has no
/// meaning: pulls from the front split at every delimiter byte, while which
/// words pulls from the back hand out is left unspecified. Either way each
/// pull hands out a nonempty run of the remaining bytes, and once a pull
/// finds nothing every later pull finds nothing.
#[derive(Debug, Clone, Copy, PartialEq, Eq)]
pub struct Iter<'a> {
    delim: u8,
    escape: u8,
    inner: &'a [u8],
}

/// The bytes of a word that a pull may return.
pub open spec fn word_view(r: Option<&[u8]>) -> Option<Seq<u8>> {
    match r {
        Some(w) => Some(w@),
        None => None,
    }
}

impl<'a> View for Iter<'a> {
    type V = Seq<u8>;

    /// The bytes not yet consumed.
    closed spec fn view(&self) -> Seq<u8> {
        self.inner@
    }
}

impl<'a> Iter<'a> {
    /// The delimiter byte.
    pub closed spec fn delim(&self) -> u8 {
        self.delim
    }

    /// The escape byte.
    pub closed spec fn escape(&self) -> u8 {
        self.escape
    }

    /// Returns the rest of the inner slice.
    pub fn as_slice(&self) -> (r: &'a [u8])
        ensures
            r@ == self@,
    {
        self.inner
    }

    /// A scanner over all of `inner`.
    pub fn from_slice(inner: &'a [u8], delim: u8, escape: u8) -> (r: Self)
        ensures
            r@ == inner@,
            r.delim() == delim,
            r.escape() == escape,
    {
        Iter { delim, escape, inner }
    }

    fn len(&self) -> (r: usize)
        ensures
            r == self@.len(),
    {
        self.inner.len()
    }

    fn is_empty(&self) -> (r: bool)
        ensures
            r <==> self@.len() == 0,
    {
        self.inner.is_empty()
    }

    /// Where the first word may begin: the number of leading delimiters.
    fn find_bow(&self) -> (r: usize)
        ensures
            r == lead(self@, self.delim),
    {
        let ghost s = self@;
        let mut i: usize = 0;
        while i < self.len() && self.inner[i] == self.delim
            invariant
                s == self@,
                i <= s.len(),
                forall|k: int| 0 <= k < i ==> s[k] == self.delim,
            decreases s.len() - i,
        {
            i += 1;
        }
        proof {
            let nd = complement(delims(s, self.delim));
            assert forall|k: int| 0 <= k < i implies !#[trigger] nd(k) by {
                assert(s[k] == self.delim);
            }
            lemma_first_where_eq(nd, 0, s.len() as int, i as int);
        }
        i
    }

    /// Where the first word ends: the first separator, or the length when
    /// there is none; `None` when nothing is left.
    fn find_eow(&self) -> (r: Option<usize>)
        ensures
            match r {
                None => self@.len() == 0,
                Some(t) => self@.len() > 0 && t == first_where(
                    seps(self@, self.delim, self.escape),
                    0,
                    self@.len() as int,
                ),
            },
    {
        if self.is_empty() {
            return None;
        }
        let ghost s = self@;
        let ghost sp = seps(s, self.delim, self.escape);
        let mut escaped = false;
        let mut i: usize = 0;
        while i < self.len()
            invariant
                s == self@,
                sp == seps(s, self.delim, self.escape),
                i <= s.len(),
                escaped == (run_before(s, self.escape, i as int) % 2 == 1),
                forall|k: int| 0 <= k < i ==> !#[trigger] sp(k),
            decreases s.len() - i,
        {
            let c = self.inner[i];
            if c == self.delim && !escaped {
                proof {
                    lemma_first_where_eq(sp, 0, s.len() as int, i as int);
                }
                return Some(i);
            }
            escaped = if c == self.escape {
                !escaped
            } else {
                false
            };
            i += 1;
        }
        proof {
            lemma_first_where_eq(sp, 0, s.len() as int, s.len() as int);
        }
        Some(self.len())
    }

    /// Where the last word ends: one past its last byte. Trailing delimiters
    /// are passed over, but one escaped by the run of escapes before it
    /// belongs to the word. `None` when every byte left is a delimiter.
    fn rfind_eow(&self) -> (r: Option<usize>)
        ensures
            r is None <==> exhausted(self@, self.delim),
            r matches Some(end) ==> 1 <= end <= self@.len() && !is_sep(
                self@,
                self.delim,
                self.escape,
                end - 1,
            ),
            self.delim != self.escape ==> (r matches Some(end) ==> end == last_end(
                self@,
                self.delim,
                self.escape,
            )),
    {
        let ghost s = self@;
        let ghost n = s.len() as int;
        let d = self.delim;
        let e = self.escape;
        let ghost ns = complement(seps(s, d, e));
        let mut i: usize = self.len();
        while i > 0 && self.inner[i - 1] == d
            invariant
                s == self@,
                n == s.len(),
                d == self.delim,
                e == self.escape,
                i <= n,
                forall|k: int| i <= k < n ==> s[k] == d,
            decreases i,
        {
            i -= 1;
        }
        if i == 0 {
            return None;
        }
        let last = i - 1;
        if self.inner[last] != e {
            proof {
                if d != e {
                    assert forall|k: int| i <= k < n implies !#[trigger] ns(k) by {
                        assert(s[k - 1] != e);
                    }
                    lemma_last_where_eq(ns, n, i as int);
                }
            }
            return Some(i);
        }
        let mut j: usize = last;
        while j > 0 && self.inner[j - 1] == e
            invariant
                s == self@,
                n == s.len(),
                j <= last < n,
                s[last as int] == e,
                run_before(s, e, last + 1) == run_before(s, e, j as int) + (last + 1 - j),
            decreases j,
        {
            j -= 1;
        }
        assert(run_before(s, e, j as int) == 0);
        if iso_parity(last, j) && i < self.len() {
            proof {
                if d != e {
                    assert forall|k: int| i + 1 <= k < n implies !#[trigger] ns(k) by {
                        assert(s[k - 1] == d);
                    }
                    lemma_last_where_eq(ns, n, i + 1);
                }
            }
            Some(i + 1)
        } else {
            proof {
                if d != e {
                    assert forall|k: int| i <= k < n implies !#[trigger] ns(k) by {
                        if k > i {
                            assert(s[k - 1] == d);
                        }
                    }
                    lemma_last_where_eq(ns, n, i as int);
                }
            }
            Some(i)
        }
    }

    /// Where the last word begins, in a scanner that ends where that word
    /// ends: one past the last separator, or `0` when there is none.
    fn rfind_bow(&self) -> (r: usize)
        requires
            self@.len() > 0,
            !is_sep(self@, self.delim, self.escape, self@.len() - 1),
        ensures
            r < self@.len(),
            r > 0 ==> is_sep(self@, self.delim, self.escape, r - 1),
            self.delim != self.escape ==> r == last_where(
                seps(self@, self.delim, self.escape),
                self@.len() as int,
            ),
    {
        let ghost s = self@;
        let ghost n = s.len() as int;
        let d = self.delim;
        let e = self.escape;
        let ghost sp = seps(s, d, e);
        let mut i: usize = self.len();
        while i > 0
            invariant
                s == self@,
                n == s.len(),
                d == self.delim,
                e == self.escape,
                sp == seps(s, d, e),
                i <= n,
                !is_sep(s, d, e, n - 1),
                d != e ==> forall|k: int| i <= k < n ==> !#[trigger] sp(k),
            decreases i,
        {
            if self.inner[i - 1] == d {
                let mut j: usize = i - 1;
                while j > 0 && self.inner[j - 1] == e
                    invariant
                        s == self@,
                        n == s.len(),
                        e == self.escape,
                        j <= i - 1,
                        i <= n,
                        forall|k: int| j <= k < i - 1 ==> s[k] == e,
                        run_before(s, e, i - 1) == run_before(s, e, j as int) + (i - 1 - j),
                    decreases j,
                {
                    j -= 1;
                }
                assert(run_before(s, e, j as int) == 0);
                if iso_parity(i - 1, j) {
                    proof {
                        assert(sp(i - 1));
                        if d != e {
                            lemma_last_where_eq(sp, n, i as int);
                        }
                    }
                    return i;
                }
                proof {
                    if d != e {
                        assert forall|k: int| j <= k < n implies !#[trigger] sp(k) by {
                            if k < i - 1 {
                                assert(s[k] == e);
                            }
                        }
                    }
                }
                i = j;
            } else {
                i -= 1;
            }
        }
        proof {
            if d != e {
                lemma_last_where_eq(sp, n, 0);
            }
        }
        0
    }

    /// Takes the next word from the front: leading delimiters are skipped,
    /// then the word runs up to the first separator.
    pub fn next(&mut self) -> (r: Option<&'a [u8]>)
        ensures
            final(self).delim() == old(self).delim(),
            final(self).escape() == old(self).escape(),
            (word_view(r), final(self)@) == front_step(
                old(self)@,
                old(self).delim(),
                old(self).escape(),
            ),
            r is None <==> exhausted(old(self)@, old(self).delim()),
            r is None ==> final(self)@.len() == 0,
            r matches Some(w) ==> w@.len() > 0 && final(self)@.len() < old(self)@.len(),
            old(self).delim() != old(self).escape() ==> (r matches Some(w) ==> words(
                old(self)@,
                old(self).delim(),
                old(self).escape(),
            ) == seq![w@] + words(final(self)@, old(self).delim(), old(self).escape())),
            old(self).delim() != old(self).escape() ==> (r is None ==> words(
                old(self)@,
                old(self).delim(),
                old(self).escape(),
            ).len() == 0),
    {
        let ghost s = self@;
        let ghost d = self.delim;
        let ghost e = self.escape;
        let pos = self.find_bow();
        proof {
            crate::proofs::lemma_first_where(complement(delims(s, d)), 0, s.len() as int);
        }
        self.inner = slice_subrange(self.inner, pos, self.inner.len());
        proof {
            lemma_front_shrinks(s, d, e);
            if d != e {
                lemma_front_step(s, d, e);
            }
        }
        match self.find_eow() {
            None => None,
            Some(t) => {
                proof {
                    crate::proofs::lemma_first_where(
                        seps(self@, d, e),
                        0,
                        self@.len() as int,
                    );
                }
                let w = slice_subrange(self.inner, 0, t);
                self.inner = slice_subrange(self.inner, t, self.inner.len());
                Some(w)
            },
        }
    }

    /// Takes the next word from the back: trailing delimiters are passed
    /// over, then the word runs back to the last separator before it.
    pub fn next_back(&mut self) -> (r: Option<&'a [u8]>)
        ensures
            final(self).delim() == old(self).delim(),
            final(self).escape() == old(self).escape(),
            r is None <==> exhausted(old(self)@, old(self).delim()),
            r is None ==> final(self)@ == old(self)@,
            r matches Some(w) ==> {
                let k = final(self)@.len() as int;
                &&& w@.len() > 0
                &&& k < old(self)@.len()
                &&& final(self)@ == old(self)@.subrange(0, k)
                &&& w@ == old(self)@.subrange(k, k + w@.len())
            },
            old(self).delim() != old(self).escape() ==> (word_view(r), final(self)@) == back_step(
                old(self)@,
                old(self).delim(),
                old(self).escape(),
            ),
            old(self).delim() != old(self).escape() ==> (r matches Some(w) ==> words(
                old(self)@,
                old(self).delim(),
                old(self).escape(),
            ) == words(final(self)@, old(self).delim(), old(self).escape()).push(w@)),
            old(self).delim() != old(self).escape() ==> (r is None ==> words(
                old(self)@,
                old(self).delim(),
                old(self).escape(),
            ).len() == 0),
    {
        let ghost s = self@;
        let ghost d = self.delim;
        let ghost e = self.escape;
        proof {
            lemma_back_shrinks(s, d, e);
            if d != e {
                lemma_back_step(s, d, e);
            }
        }
        match self.rfind_eow() {
            None => None,
            Some(end) => {
                self.inner = slice_subrange(self.inner, 0, end);
                let ghost s1 = self@;
                proof {
                    lemma_words_prefix(s, d, e, end as int);
                }
                let bow = self.rfind_bow();
                let w = slice_subrange(self.inner, bow, end);
                self.inner = slice_subrange(self.inner, 0, bow);
                proof {
                    assert(w@ =~= s.subrange(bow as int, end as int));
                    assert(self@ =~= s.subrange(0, bow as int));
                    if d != e {
                        lemma_last_where(seps(s1, d, e), end as int);
                        assert forall|i: int| bow <= i < end implies !#[trigger] seps(s, d, e)(i) by {
                            assert(!seps(s1, d, e)(i));
                        }
                        if bow > 0 {
                            assert(is_sep(s1, d, e, bow - 1));
                        }
                        lemma_last_where_eq(seps(s, d, e), end as int, bow as int);
                    }
                }
                Some(w)
            },
        }
    }
}

} // verus!
