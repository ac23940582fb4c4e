//! The corpus: a trie of hyphenation patterns, an exception dictionary, and
//! three thresholds, turned into sorted break offsets for a single word.

use vstd::prelude::*;
use crate::trie::{
    Trie, PatternError, valid_pattern, letters_of, weights_of, fetch_seq,
};
use crate::text::{chars_of, eq_chars, copy_offsets, split_whitespace_tokens, ws_tokens_of};

verus! {

/// The character indices of `w` that hold a hyphen, in ascending order,
/// starting the scan at `k`.
pub open spec fn hyphen_positions_from(w: Seq<char>, k: int) -> Seq<usize>
    decreases w.len() - k,
{
    if k < 0 || k >= w.len() {
        Seq::empty()
    } else if w[k] == '-' {
        seq![k as usize] + hyphen_positions_from(w, k + 1)
    } else {
        hyphen_positions_from(w, k + 1)
    }
}

/// The character indices of `w` that hold a hyphen, in ascending order.
pub open spec fn hyphen_positions(w: Seq<char>) -> Seq<usize> {
    hyphen_positions_from(w, 0)
}

/// `w` with every hyphen removed.
pub open spec fn strip_hyphens(w: Seq<char>) -> Seq<char>
    decreases w.len(),
{
    if w.len() == 0 {
        Seq::empty()
    } else if w[0] == '-' {
        strip_hyphens(w.skip(1))
    } else {
        seq![w[0]] + strip_hyphens(w.skip(1))
    }
}

/// The exception dictionary held by an association list, later entries
/// taking precedence.
pub open spec fn exc_map_of(s: Seq<(Vec<char>, Vec<usize>)>) -> Map<Seq<char>, Seq<usize>>
    decreases s.len(),
{
    if s.len() == 0 {
        Map::empty()
    } else {
        exc_map_of(s.drop_last()).insert(s.last().0@, s.last().1@)
    }
}

/// A break is permitted immediately before offset `o` when the weight just
/// past it is nonzero and even; odd weights forbid the break.
pub open spec fn break_allowed(ws: Seq<usize>, o: int) -> bool {
    &&& 0 <= o + 1 < ws.len()
    &&& ws[o + 1] > 0
    &&& ws[o + 1] % 2 == 0
}

/// The permitted break offsets in `[o, hi)`, in ascending order.
pub open spec fn breaks_from(ws: Seq<usize>, hi: int, o: int) -> Seq<usize>
    decreases hi - o,
{
    if o < 0 || o >= hi {
        Seq::empty()
    } else {
        (if break_allowed(ws, o) {
            seq![o as usize]
        } else {
            Seq::empty()
        }) + breaks_from(ws, hi, o + 1)
    }
}

/// A word framed by the boundary marker on both sides.
pub open spec fn padded(w: Seq<char>) -> Seq<char> {
    seq!['.'] + w + seq!['.']
}

/// Entries strictly ascending.
pub open spec fn strictly_increasing(s: Seq<usize>) -> bool {
    forall|a: int, b: int| 0 <= a < b < s.len() ==> s[a] < s[b]
}

/// The exception list is well formed: keys unique, offsets strictly
/// ascending.
pub open spec fn exceptions_wf(s: Seq<(Vec<char>, Vec<usize>)>) -> bool {
    &&& forall|a: int, b: int| 0 <= a < b < s.len() ==> (#[trigger] s[a]).0@ != (#[trigger] s[b]).0@
    &&& forall|i: int| 0 <= i < s.len() ==> strictly_increasing((#[trigger] s[i]).1@)
}

/// The patterns inserted by walking a token list in order, invalid tokens
/// skipped.
pub open spec fn insert_tokens(
    m: Map<Seq<char>, Seq<usize>>,
    toks: Seq<Seq<char>>,
) -> Map<Seq<char>, Seq<usize>>
    decreases toks.len(),
{
    if toks.len() == 0 {
        m
    } else {
        insert_tokens(
            if valid_pattern(toks[0]) {
                m.insert(letters_of(toks[0]), weights_of(toks[0]))
            } else {
                m
            },
            toks.skip(1),
        )
    }
}

/// How many tokens of a list are valid patterns.
pub open spec fn count_valid(toks: Seq<Seq<char>>) -> nat
    decreases toks.len(),
{
    if toks.len() == 0 {
        0
    } else {
        (if valid_pattern(toks[0]) {
            1nat
        } else {
            0nat
        }) + count_valid(toks.skip(1))
    }
}

proof fn lemma_exc_map_contains(s: Seq<(Vec<char>, Vec<usize>)>, k: Seq<char>)
    ensures
        exc_map_of(s).contains_key(k) <==> exists|i: int|
            0 <= i < s.len() && (#[trigger] s[i]).0@ == k,
    decreases s.len(),
{
    if s.len() > 0 {
        lemma_exc_map_contains(s.drop_last(), k);
        if exc_map_of(s).contains_key(k) {
            if s.last().0@ != k {
                let i = choose|i: int| 0 <= i < s.drop_last().len() && (#[trigger] s.drop_last()[i]).0@ == k;
                assert(s[i].0@ == k);
            } else {
                assert(s[s.len() - 1].0@ == k);
            }
        } else {
            assert(forall|i: int| 0 <= i < s.len() - 1 ==> (#[trigger] s[i]).0@ == s.drop_last()[i].0@);
        }
    }
}

proof fn lemma_exc_map_value(s: Seq<(Vec<char>, Vec<usize>)>, i: int)
    requires
        0 <= i < s.len(),
        forall|a: int, b: int| 0 <= a < b < s.len() ==> (#[trigger] s[a]).0@ != (#[trigger] s[b]).0@,
    ensures
        exc_map_of(s).contains_key(s[i].0@),
        exc_map_of(s)[s[i].0@] == s[i].1@,
    decreases s.len(),
{
    if i < s.len() - 1 {
        assert(forall|a: int, b: int|
            0 <= a < b < s.drop_last().len() ==> (#[trigger] s.drop_last()[a]).0@ != (
            #[trigger] s.drop_last()[b]).0@);
        lemma_exc_map_value(s.drop_last(), i);
        assert(s.drop_last()[i] == s[i]);
        assert(s.last().0@ != s[i].0@);
    }
}

proof fn lemma_exc_map_update(s: Seq<(Vec<char>, Vec<usize>)>, i: int, v: Vec<usize>)
    requires
        0 <= i < s.len(),
        forall|a: int, b: int| 0 <= a < b < s.len() ==> (#[trigger] s[a]).0@ != (#[trigger] s[b]).0@,
    ensures
        exc_map_of(s.update(i, (s[i].0, v))) == exc_map_of(s).insert(s[i].0@, v@),
    decreases s.len(),
{
    let s2 = s.update(i, (s[i].0, v));
    if i == s.len() - 1 {
        assert(s2.drop_last() =~= s.drop_last());
        assert(s2.last() == (s[i].0, v));
        assert(exc_map_of(s2) == exc_map_of(s.drop_last()).insert(s[i].0@, v@));
        assert(exc_map_of(s) == exc_map_of(s.drop_last()).insert(s[i].0@, s[i].1@));
        assert(exc_map_of(s).insert(s[i].0@, v@) =~= exc_map_of(s.drop_last()).insert(s[i].0@, v@));
    } else {
        assert(forall|a: int, b: int|
            0 <= a < b < s.drop_last().len() ==> (#[trigger] s.drop_last()[a]).0@ != (
            #[trigger] s.drop_last()[b]).0@);
        lemma_exc_map_update(s.drop_last(), i, v);
        assert(s2.drop_last() =~= s.drop_last().update(i, (s[i].0, v)));
        assert(s2.last() == s.last());
        assert(s.drop_last()[i] == s[i]);
        assert(exc_map_of(s2) == exc_map_of(s.drop_last()).insert(s[i].0@, v@).insert(
            s.last().0@,
            s.last().1@,
        ));
        assert(s.last().0@ != s[i].0@);
        assert(exc_map_of(s.drop_last()).insert(s[i].0@, v@).insert(s.last().0@, s.last().1@)
            =~= exc_map_of(s.drop_last()).insert(s.last().0@, s.last().1@).insert(s[i].0@, v@));
    }
}

proof fn lemma_exc_map_dom_len(s: Seq<(Vec<char>, Vec<usize>)>)
    requires
        forall|a: int, b: int| 0 <= a < b < s.len() ==> (#[trigger] s[a]).0@ != (#[trigger] s[b]).0@,
    ensures
        exc_map_of(s).dom().finite(),
        exc_map_of(s).dom().len() == s.len(),
    decreases s.len(),
{
    if s.len() > 0 {
        assert(forall|a: int, b: int|
            0 <= a < b < s.drop_last().len() ==> (#[trigger] s.drop_last()[a]).0@ != (
            #[trigger] s.drop_last()[b]).0@);
        lemma_exc_map_dom_len(s.drop_last());
        lemma_exc_map_contains(s.drop_last(), s.last().0@);
        assert(forall|i: int| 0 <= i < s.len() - 1 ==> (#[trigger] s.drop_last()[i]).0@ == s[i].0@);
        assert(!exc_map_of(s.drop_last()).contains_key(s.last().0@));
        assert(exc_map_of(s).dom() =~= exc_map_of(s.drop_last()).dom().insert(s.last().0@));
    }
}

proof fn lemma_hyphen_positions_increasing(w: Seq<char>, k: int)
    requires
        w.len() <= usize::MAX,
    ensures
        strictly_increasing(hyphen_positions_from(w, k)),
        forall|t: int|
            0 <= t < hyphen_positions_from(w, k).len() ==> k <= #[trigger] hyphen_positions_from(
                w,
                k,
            )[t],
    decreases w.len() - k,
{
    if 0 <= k < w.len() {
        lemma_hyphen_positions_increasing(w, k + 1);
        let rest = hyphen_positions_from(w, k + 1);
        let s = hyphen_positions_from(w, k);
        if w[k] == '-' {
            assert(s == seq![k as usize] + rest);
            assert(s[0] == k as usize);
            assert(forall|t: int| 1 <= t < s.len() ==> s[t] == rest[t - 1]);
        } else {
            assert(s == rest);
        }
    }
}

proof fn lemma_breaks_from_increasing(ws: Seq<usize>, hi: int, o: int)
    requires
        hi <= usize::MAX as int + 1,
    ensures
        strictly_increasing(breaks_from(ws, hi, o)),
        forall|t: int|
            0 <= t < breaks_from(ws, hi, o).len() ==> o <= #[trigger] breaks_from(ws, hi, o)[t],
    decreases hi - o,
{
    if 0 <= o < hi {
        lemma_breaks_from_increasing(ws, hi, o + 1);
        let rest = breaks_from(ws, hi, o + 1);
        let s = breaks_from(ws, hi, o);
        if break_allowed(ws, o) {
            assert(s == seq![o as usize] + rest);
            assert(s[0] == o as usize);
            assert(forall|t: int| 1 <= t < s.len() ==> s[t] == rest[t - 1]);
        } else {
            assert(s =~= rest);
        }
    }
}

/// A break offset is returned exactly when it lies in the scanned window and
/// its weight is nonzero and even.
pub proof fn lemma_breaks_from_membership(ws: Seq<usize>, hi: int, o: int, x: usize)
    requires
        0 <= o,
        hi <= usize::MAX as int + 1,
    ensures
        breaks_from(ws, hi, o).contains(x) <==> (o <= x < hi && break_allowed(ws, x as int)),
    decreases hi - o,
{
    if o < 0 || o >= hi {
        assert(!breaks_from(ws, hi, o).contains(x));
    } else {
        lemma_breaks_from_membership(ws, hi, o + 1, x);
        let rest = breaks_from(ws, hi, o + 1);
        let s = breaks_from(ws, hi, o);
        if break_allowed(ws, o) {
            assert(s == seq![o as usize] + rest);
            assert(s[0] == o as usize);
            assert(forall|t: int| 1 <= t < s.len() ==> s[t] == rest[t - 1]);
            if x == o {
                assert(s.contains(x));
            } else if rest.contains(x) {
                let t = choose|t: int| 0 <= t < rest.len() && rest[t] == x;
                assert(s[t + 1] == x);
                assert(s.contains(x));
            }
            if s.contains(x) && x != o {
                let t = choose|t: int| 0 <= t < s.len() && s[t] == x;
                assert(t >= 1);
                assert(rest[t - 1] == x);
                assert(rest.contains(x));
            }
        } else {
            assert(s =~= rest);
        }
    }
}

/// A word below the minimum length, or with no position clearing both
/// margins, yields no break offsets at all.
pub proof fn lemma_short_word_no_breaks(c: Corpus, w: Seq<char>)
    requires
        c.too_short(w),
    ensures
        c.word_indices(w) == Seq::<usize>::empty(),
{
}

/// A registered exception word bypasses pattern computation entirely: its
/// stored offsets are returned verbatim, whatever the patterns would say.
pub proof fn lemma_exception_precedence(c: Corpus, w: Seq<char>)
    requires
        !c.too_short(w),
        c.exc().contains_key(w),
    ensures
        c.word_indices(w) == c.exc()[w],
{
}

/// A pattern-derived break offset always sits on an even nonzero weight
/// inside the margins: a position with an odd weight is never returned.
pub proof fn lemma_break_parity(c: Corpus, w: Seq<char>, x: usize)
    requires
        !c.too_short(w),
        !c.exc().contains_key(w),
        c.word_indices(w).contains(x),
        w.len() <= usize::MAX,
    ensures
        fetch_seq(c.pats(), padded(w))[x as int + 1] > 0,
        fetch_seq(c.pats(), padded(w))[x as int + 1] % 2 == 0,
        c.spec_left_min() <= x < w.len() + 1 - c.spec_right_min(),
{
    lemma_breaks_from_membership(
        fetch_seq(c.pats(), padded(w)),
        w.len() as int + 1 - c.spec_right_min() as int,
        c.spec_left_min() as int,
        x,
    );
}

/// The corpus of one hyphenation dictionary: patterns, exceptions, and the
/// thresholds that bound which words and positions may break.
pub struct Corpus {
    patterns: Trie,
    exceptions: Vec<(Vec<char>, Vec<usize>)>,
    min_word_length: usize,
    left_min: usize,
    right_min: usize,
}

impl Corpus {
    /// The stored patterns: letter path to weight vector.
    pub closed spec fn pats(self) -> Map<Seq<char>, Seq<usize>> {
        self.patterns.pats()
    }

    /// The exception dictionary: hyphen-free word to its break offsets.
    pub closed spec fn exc(self) -> Map<Seq<char>, Seq<usize>> {
        exc_map_of(self.exceptions@)
    }

    pub closed spec fn spec_min_word_length(self) -> usize {
        self.min_word_length
    }

    pub closed spec fn spec_left_min(self) -> usize {
        self.left_min
    }

    pub closed spec fn spec_right_min(self) -> usize {
        self.right_min
    }

    pub closed spec fn spec_pattern_count(self) -> usize {
        self.patterns.spec_count()
    }

    pub closed spec fn spec_exception_count(self) -> nat {
        self.exceptions@.len()
    }

    /// Well-formedness: the trie is well formed, exception keys are unique,
    /// and each exception's offsets ascend strictly.
    pub closed spec fn wf(self) -> bool {
        &&& self.patterns.wf()
        &&& exceptions_wf(self.exceptions@)
    }

    /// A word is too short to hyphenate when it is under the minimum length
    /// or no position clears both margins.
    pub open spec fn too_short(self, w: Seq<char>) -> bool {
        w.len() < self.spec_min_word_length() || w.len() <= self.spec_left_min()
            + self.spec_right_min()
    }

    /// The break offsets owed for `w`: none for a short word, the stored
    /// offsets verbatim for an exception, and otherwise the pattern weights
    /// of the padded word filtered by parity inside the margins.
    pub open spec fn word_indices(self, w: Seq<char>) -> Seq<usize> {
        if self.too_short(w) {
            Seq::empty()
        } else if self.exc().contains_key(w) {
            self.exc()[w]
        } else {
            breaks_from(
                fetch_seq(self.pats(), padded(w)),
                w.len() + 1 - self.spec_right_min(),
                self.spec_left_min() as int,
            )
        }
    }

    /// Overrides the minimum word length below which no breaks are returned.
    pub fn min_word_length(&mut self, min: usize)
        ensures
            final(self).spec_min_word_length() == min,
            final(self).spec_left_min() == old(self).spec_left_min(),
            final(self).spec_right_min() == old(self).spec_right_min(),
            final(self).pats() == old(self).pats(),
            final(self).exc() == old(self).exc(),
            final(self).spec_pattern_count() == old(self).spec_pattern_count(),
            final(self).spec_exception_count() == old(self).spec_exception_count(),
            final(self).wf() == old(self).wf(),
    {
        self.min_word_length = min;
    }

    /// Overrides how many leading characters must stay unbroken.
    pub fn left_min(&mut self, min: usize)
        ensures
            final(self).spec_left_min() == min,
            final(self).spec_min_word_length() == old(self).spec_min_word_length(),
            final(self).spec_right_min() == old(self).spec_right_min(),
            final(self).pats() == old(self).pats(),
            final(self).exc() == old(self).exc(),
            final(self).spec_pattern_count() == old(self).spec_pattern_count(),
            final(self).spec_exception_count() == old(self).spec_exception_count(),
            final(self).wf() == old(self).wf(),
    {
        self.left_min = min;
    }

    /// Overrides how many trailing characters must stay unbroken.
    pub fn right_min(&mut self, min: usize)
        ensures
            final(self).spec_right_min() == min,
            final(self).spec_min_word_length() == old(self).spec_min_word_length(),
            final(self).spec_left_min() == old(self).spec_left_min(),
            final(self).pats() == old(self).pats(),
            final(self).exc() == old(self).exc(),
            final(self).spec_pattern_count() == old(self).spec_pattern_count(),
            final(self).spec_exception_count() == old(self).spec_exception_count(),
            final(self).wf() == old(self).wf(),
    {
        self.right_min = min;
    }

    /// Adds one hyphenation pattern, rejecting an empty or digit-led one.
    pub fn add_pattern(&mut self, pattern: &str) -> (r: Result<(), PatternError>)
        requires
            old(self).wf(),
            old(self).spec_pattern_count() < usize::MAX,
        ensures
            final(self).wf(),
            r is Ok <==> valid_pattern(pattern@),
            final(self).exc() == old(self).exc(),
            final(self).spec_exception_count() == old(self).spec_exception_count(),
            final(self).spec_min_word_length() == old(self).spec_min_word_length(),
            final(self).spec_left_min() == old(self).spec_left_min(),
            final(self).spec_right_min() == old(self).spec_right_min(),
            match r {
                Ok(()) => final(self).pats() == old(self).pats().insert(
                    letters_of(pattern@),
                    weights_of(pattern@),
                ) && final(self).spec_pattern_count() == old(self).spec_pattern_count() + 1,
                Err(e) => *final(self) == *old(self) && (e == PatternError::Empty <==> pattern@.len()
                    == 0),
            },
    {
        self.patterns.insert(pattern)
    }

    /// Registers an exception word: its hyphens name the break offsets,
    /// recorded at their positions in the hyphen-carrying spelling, keyed by
    /// the hyphen-free word. A later registration of the same word replaces
    /// the earlier offsets.
    pub fn add_exception(&mut self, word: &str)
        requires
            old(self).wf(),
        ensures
            final(self).wf(),
            final(self).exc() == old(self).exc().insert(
                strip_hyphens(word@),
                hyphen_positions(word@),
            ),
            final(self).pats() == old(self).pats(),
            final(self).spec_pattern_count() == old(self).spec_pattern_count(),
            final(self).spec_min_word_length() == old(self).spec_min_word_length(),
            final(self).spec_left_min() == old(self).spec_left_min(),
            final(self).spec_right_min() == old(self).spec_right_min(),
            final(self).spec_exception_count() == if old(self).exc().contains_key(
                strip_hyphens(word@),
            ) {
                old(self).spec_exception_count()
            } else {
                old(self).spec_exception_count() + 1
            },
    {
        let w = chars_of(word);
        let n = w.len();
        let mut cleaned: Vec<char> = Vec::new();
        let mut positions: Vec<usize> = Vec::new();
        let mut k: usize = 0;
        proof {
            assert(word@.skip(0) == word@);
        }
        while k < n
            invariant
                n == word@.len(),
                k <= n,
                w@ == word@,
                cleaned@ + strip_hyphens(word@.skip(k as int)) == strip_hyphens(word@),
                positions@ + hyphen_positions_from(word@, k as int) == hyphen_positions(word@),
            decreases n - k,
        {
            let c = w[k];
            proof {
                assert(word@.skip(k as int)[0] == word@[k as int]);
                assert(word@.skip(k as int).skip(1) == word@.skip(k as int + 1));
            }
            if c == '-' {
                positions.push(k);
            } else {
                cleaned.push(c);
            }
            k += 1;
        }
        proof {
            assert(word@.skip(n as int) =~= Seq::<char>::empty());
            assert(cleaned@ == strip_hyphens(word@));
            assert(positions@ == hyphen_positions(word@));
            lemma_hyphen_positions_increasing(word@, 0);
            assert(strictly_increasing(positions@));
        }
        let m = self.exceptions.len();
        let mut i: usize = 0;
        while i < m
            invariant
                m == self.exceptions@.len(),
                i <= m,
                *self == *old(self),
                self.wf(),
                cleaned@ == strip_hyphens(word@),
                positions@ == hyphen_positions(word@),
                strictly_increasing(positions@),
                forall|t: int| 0 <= t < i ==> (#[trigger] self.exceptions@[t]).0@ != cleaned@,
            decreases m - i,
        {
            if eq_chars(&self.exceptions[i].0, &cleaned) {
                let ghost s1 = self.exceptions@;
                proof {
                    lemma_exc_map_contains(s1, cleaned@);
                    lemma_exc_map_update(s1, i as int, positions);
                }
                let vref = &mut self.exceptions[i];
                vref.1 = positions;
                proof {
                    assert(self.exceptions@ == s1.update(i as int, (s1[i as int].0, positions)));
                    assert(self.exc() == exc_map_of(s1).insert(cleaned@, positions@));
                    assert forall|a: int, b: int|
                        0 <= a < b < self.exceptions@.len() implies (
                    #[trigger] self.exceptions@[a]).0@ != (#[trigger] self.exceptions@[b]).0@ by {
                        assert(s1[a].0@ != s1[b].0@);
                    }
                }
                return;
            }
            i += 1;
        }
        let ghost s1 = self.exceptions@;
        proof {
            lemma_exc_map_contains(s1, cleaned@);
            assert(!self.exc().contains_key(cleaned@));
        }
        self.exceptions.push((cleaned, positions));
        proof {
            let s2 = self.exceptions@;
            assert(s2.drop_last() =~= s1);
            assert(s2.last().0@ == strip_hyphens(word@));
            assert(s2.last().1@ == hyphen_positions(word@));
            assert(self.exc() == exc_map_of(s1).insert(
                strip_hyphens(word@),
                hyphen_positions(word@),
            ));
            assert forall|a: int, b: int|
                0 <= a < b < s2.len() implies (#[trigger] s2[a]).0@ != (#[trigger] s2[b]).0@ by {
                if b < s2.len() - 1 {
                    assert(s1[a].0@ != s1[b].0@);
                } else {
                    assert(s1[a].0@ != cleaned@);
                }
            }
        }
    }

    /// How many patterns have been accepted, duplicates counted again.
    pub fn get_pattern_count(&self) -> (r: usize)
        ensures
            r == self.spec_pattern_count(),
    {
        self.patterns.count()
    }

    /// How many distinct exception words are registered.
    pub fn get_exception_count(&self) -> (r: usize)
        requires
            self.wf(),
        ensures
            r as nat == self.spec_exception_count(),
            r as nat == self.exc().dom().len(),
    {
        proof {
            lemma_exc_map_dom_len(self.exceptions@);
        }
        self.exceptions.len()
    }

    /// The sorted break offsets for one word: empty for a word too short to
    /// hyphenate, the stored offsets verbatim for an exception word, and
    /// otherwise the even nonzero pattern weights inside the margins.
    pub fn get_hyphenation_indices(&self, word: &str) -> (r: Vec<usize>)
        requires
            self.wf(),
        ensures
            r@ == self.word_indices(word@),
            strictly_increasing(r@),
    {
        let w = chars_of(word);
        let wlen = w.len();
        if wlen < self.min_word_length || self.left_min >= wlen || wlen - self.left_min
            <= self.right_min {
            assert(self.too_short(word@));
            return Vec::new();
        }
        assert(!self.too_short(word@));
        let m = self.exceptions.len();
        let mut i: usize = 0;
        while i < m
            invariant
                i <= m,
                m == self.exceptions@.len(),
                w@ == word@,
                self.wf(),
                !self.too_short(word@),
                forall|t: int| 0 <= t < i ==> (#[trigger] self.exceptions@[t]).0@ != word@,
            decreases m - i,
        {
            if eq_chars(&self.exceptions[i].0, &w) {
                let r = copy_offsets(&self.exceptions[i].1);
                proof {
                    lemma_exc_map_value(self.exceptions@, i as int);
                    assert(self.exceptions@[i as int].0@ == word@);
                    assert(self.exc().contains_key(word@));
                    assert(self.exc()[word@] == self.exceptions@[i as int].1@);
                    assert(strictly_increasing(self.exceptions@[i as int].1@));
                    assert(r@ == self.exceptions@[i as int].1@);
                    assert(!self.too_short(word@));
                    assert(self.word_indices(word@) == self.exc()[word@]);
                }
                return r;
            }
            i += 1;
        }
        proof {
            lemma_exc_map_contains(self.exceptions@, word@);
            assert(!self.exc().contains_key(word@));
        }
        let mut pw: Vec<char> = Vec::new();
        pw.push('.');
        let mut w2 = w;
        pw.append(&mut w2);
        pw.push('.');
        proof {
            assert(pw@ =~= padded(word@));
        }
        let pts = self.patterns.fetch(&pw);
        let ghost ws = pts@;
        let ptslen = pts.len();
        proof {
            assert(ws == fetch_seq(self.pats(), padded(word@)));
            assert(ws.len() == wlen + 2);
        }
        let hi = wlen - self.right_min;
        let ghost hi_spec: int = wlen as int + 1 - self.spec_right_min() as int;
        let mut o: usize = self.left_min;
        let mut r: Vec<usize> = Vec::new();
        proof {
            assert(breaks_from(ws, hi_spec, self.spec_left_min() as int) == r@ + breaks_from(
                ws,
                hi_spec,
                o as int,
            ));
        }
        while o <= hi
            invariant
                ws.len() == wlen + 2,
                pts@ == ws,
                ptslen == wlen + 2,
                wlen == word@.len(),
                ws == fetch_seq(self.pats(), padded(word@)),
                !self.too_short(word@),
                !self.exc().contains_key(word@),
                hi == wlen - self.spec_right_min(),
                hi_spec == hi + 1,
                self.spec_left_min() <= o <= hi + 1,
                breaks_from(ws, hi_spec, self.spec_left_min() as int) == r@ + breaks_from(
                    ws,
                    hi_spec,
                    o as int,
                ),
            decreases hi + 1 - o,
        {
            let v = pts[o + 1];
            let ghost r_old = r@;
            if v > 0 && v % 2 == 0 {
                r.push(o);
            }
            proof {
                let step = if break_allowed(ws, o as int) {
                    seq![o]
                } else {
                    Seq::<usize>::empty()
                };
                assert(break_allowed(ws, o as int) == (v > 0 && v % 2 == 0));
                assert(breaks_from(ws, hi_spec, o as int) == step + breaks_from(
                    ws,
                    hi_spec,
                    o as int + 1,
                ));
                assert(r@ =~= r_old + step);
                assert((r_old + step) + breaks_from(ws, hi_spec, o as int + 1) =~= r_old + (step
                    + breaks_from(ws, hi_spec, o as int + 1)));
            }
            o += 1;
        }
        proof {
            assert(breaks_from(ws, hi_spec, o as int) =~= Seq::<usize>::empty());
            assert(r@ == breaks_from(ws, hi_spec, self.spec_left_min() as int));
            lemma_breaks_from_increasing(ws, hi_spec, self.spec_left_min() as int);
        }
        r
    }

    /// A corpus built from whitespace-separated patterns, with the default
    /// thresholds and no exceptions; tokens that are not valid patterns are
    /// skipped.
    pub fn from_string(patterns: &str) -> (c: Corpus)
        ensures
            c.wf(),
            c.exc() == Map::<Seq<char>, Seq<usize>>::empty(),
            c.spec_exception_count() == 0,
            c.spec_min_word_length() == 5,
            c.spec_left_min() == 2,
            c.spec_right_min() == 2,
            c.pats() == insert_tokens(
                Map::<Seq<char>, Seq<usize>>::empty(),
                ws_tokens_of(patterns@),
            ),
            c.spec_pattern_count() as nat == count_valid(ws_tokens_of(patterns@)),
    {
        let toks = split_whitespace_tokens(patterns);
        let ghost tv = ws_tokens_of(patterns@);
        let mut c = Corpus::default();
        let n = toks.len();
        proof {
            assert(tv.skip(0) == tv);
            assert(tv.len() == toks@.len());
        }
        let mut k: usize = 0;
        while k < n
            invariant
                c.wf(),
                n == toks@.len(),
                k <= n,
                tv == toks@.map_values(|t: String| t@),
                c.exc() == Map::<Seq<char>, Seq<usize>>::empty(),
                c.spec_exception_count() == 0,
                c.spec_min_word_length() == 5,
                c.spec_left_min() == 2,
                c.spec_right_min() == 2,
                insert_tokens(Map::<Seq<char>, Seq<usize>>::empty(), tv) == insert_tokens(
                    c.pats(),
                    tv.skip(k as int),
                ),
                c.spec_pattern_count() as nat + count_valid(tv.skip(k as int)) == count_valid(tv),
                c.spec_pattern_count() <= k,
            decreases n - k,
        {
            proof {
                assert(tv.skip(k as int)[0] == tv[k as int]);
                assert(tv[k as int] == toks@[k as int]@);
                assert(tv.skip(k as int).skip(1) == tv.skip(k as int + 1));
            }
            let _ = c.add_pattern(toks[k].as_str());
            k += 1;
        }
        proof {
            assert(tv.skip(n as int) =~= Seq::<Seq<char>>::empty());
        }
        c
    }
}

impl Default for Corpus {
    /// An empty corpus with the default thresholds 5, 2 and 2.
    fn default() -> (c: Corpus)
        ensures
            c.wf(),
            c.pats() == Map::<Seq<char>, Seq<usize>>::empty(),
            c.exc() == Map::<Seq<char>, Seq<usize>>::empty(),
            c.spec_pattern_count() == 0,
            c.spec_exception_count() == 0,
            c.spec_min_word_length() == 5,
            c.spec_left_min() == 2,
            c.spec_right_min() == 2,
    {
        let c = Corpus {
            patterns: Trie::new(),
            exceptions: Vec::new(),
            min_word_length: 5,
            left_min: 2,
            right_min: 2,
        };
        proof {
            assert(exc_map_of(c.exceptions@) =~= Map::<Seq<char>, Seq<usize>>::empty());
        }
        c
    }
}

} // verus!

