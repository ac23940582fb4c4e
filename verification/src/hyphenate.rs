//! The text hyphenator: Unicode word segmentation over whole text, absolute
//! break offsets, and lazy segment production joined with a break mark.

use vstd::prelude::*;
use vstd::string::StrSliceExecFns;
use unicode_segmentation::UnicodeSegmentation;
use crate::corpus::Corpus;

verus! {

/// The concatenation of a list of character runs.
pub open spec fn concat_runs(rs: Seq<Seq<char>>) -> Seq<char>
    decreases rs.len(),
{
    if rs.len() == 0 {
        Seq::empty()
    } else {
        rs[0] + concat_runs(rs.skip(1))
    }
}

/// The word-boundary runs of a text.
pub uninterp spec fn word_runs_of(s: Seq<char>) -> Seq<Seq<char>>;

/// Relies on unicode_segmentation::UnicodeSegmentation::split_word_bounds:
/// the word-boundary runs of a string depend on its characters alone, and
/// their concatenation is exactly the original string (documented).
#[verifier::external_body]
fn split_word_runs(text: &str) -> (r: Vec<String>)
    ensures
        r@.map_values(|t: String| t@) == word_runs_of(text@),
        concat_runs(r@.map_values(|t: String| t@)) == text@,
{
    text.split_word_bounds().map(|w| w.to_string()).collect()
}

/// Word-local break offsets shifted to a run's start; an offset past the
/// addressable range of the text is dropped.
pub open spec fn shifted(os: Seq<usize>, base: nat) -> Seq<usize>
    decreases os.len(),
{
    if os.len() == 0 {
        Seq::empty()
    } else if os[0] + base <= usize::MAX {
        seq![(os[0] + base) as usize] + shifted(os.skip(1), base)
    } else {
        shifted(os.skip(1), base)
    }
}

/// The absolute break offsets of a text from `runs`, the first run starting
/// at `base`.
pub open spec fn text_indices_from(c: Corpus, runs: Seq<Seq<char>>, base: nat) -> Seq<usize>
    decreases runs.len(),
{
    if runs.len() == 0 {
        Seq::empty()
    } else {
        shifted(c.word_indices(runs[0]), base) + text_indices_from(
            c,
            runs.skip(1),
            base + runs[0].len(),
        )
    }
}

/// The absolute break offsets of a text: each word run's offsets, shifted
/// by the run's start, in text order.
pub open spec fn text_indices(c: Corpus, t: Seq<char>) -> Seq<usize> {
    text_indices_from(c, word_runs_of(t), 0)
}

proof fn lemma_concat_split(rs: Seq<Seq<char>>, k: int)
    requires
        0 <= k <= rs.len(),
    ensures
        concat_runs(rs) == concat_runs(rs.take(k)) + concat_runs(rs.skip(k)),
    decreases k,
{
    if k == 0 {
        assert(rs.take(0) =~= Seq::<Seq<char>>::empty());
        assert(rs.skip(0) =~= rs);
        assert(concat_runs(rs.take(0)) + concat_runs(rs) =~= concat_runs(rs));
    } else {
        lemma_concat_split(rs.skip(1), k - 1);
        assert(rs.take(k)[0] == rs[0]);
        assert(rs.take(k).skip(1) =~= rs.skip(1).take(k - 1));
        assert(rs.skip(k) =~= rs.skip(1).skip(k - 1));
        assert(concat_runs(rs.take(k)) == rs[0] + concat_runs(rs.skip(1).take(k - 1)));
        assert((rs[0] + concat_runs(rs.skip(1).take(k - 1))) + concat_runs(rs.skip(1).skip(k - 1))
            =~= rs[0] + (concat_runs(rs.skip(1).take(k - 1)) + concat_runs(rs.skip(1).skip(k - 1))));
    }
}

/// The break offsets for one word, as the corpus grants them.
pub fn possibilities_word(word: &str, corpus: &Corpus) -> (r: Vec<usize>)
    requires
        corpus.wf(),
    ensures
        r@ == corpus.word_indices(word@),
{
    corpus.get_hyphenation_indices(word)
}

/// The absolute break offsets of a whole text, in text order.
pub fn possibilities(text: &str, corpus: &Corpus) -> (r: Vec<usize>)
    requires
        corpus.wf(),
    ensures
        r@ == text_indices(*corpus, text@),
{
    let runs = split_word_runs(text);
    let ghost rv = word_runs_of(text@);
    let total = text.unicode_len();
    let n = runs.len();
    let mut r: Vec<usize> = Vec::new();
    let mut base: usize = 0;
    let mut k: usize = 0;
    proof {
        assert(rv.skip(0) == rv);
        assert(rv.take(0) =~= Seq::<Seq<char>>::empty());
        assert(rv.len() == runs@.len());
    }
    while k < n
        invariant
            corpus.wf(),
            n == runs@.len(),
            rv == runs@.map_values(|t: String| t@),
            concat_runs(rv) == text@,
            total == text@.len(),
            k <= n,
            base == concat_runs(rv.take(k as int)).len(),
            base <= total,
            text_indices(*corpus, text@) == r@ + text_indices_from(
                *corpus,
                rv.skip(k as int),
                base as nat,
            ),
        decreases n - k,
    {
        proof {
            assert(rv.skip(k as int)[0] == rv[k as int]);
            assert(rv[k as int] == runs@[k as int]@);
            assert(rv.skip(k as int).skip(1) == rv.skip(k as int + 1));
        }
        let os = corpus.get_hyphenation_indices(runs[k].as_str());
        let wl = runs[k].as_str().unicode_len();
        let ghost osv = os@;
        let ghost r0 = r@;
        let m = os.len();
        let mut t: usize = 0;
        proof {
            assert(osv.skip(0) == osv);
        }
        while t < m
            invariant
                m == osv.len(),
                os@ == osv,
                t <= m,
                base <= usize::MAX,
                r0 + shifted(osv, base as nat) == r@ + shifted(osv.skip(t as int), base as nat),
            decreases m - t,
        {
            proof {
                assert(osv.skip(t as int)[0] == osv[t as int]);
                assert(osv.skip(t as int).skip(1) == osv.skip(t as int + 1));
            }
            let o = os[t];
            let ghost r_before = r@;
            if o <= usize::MAX - base {
                r.push(o + base);
                proof {
                    assert(r@ =~= r_before + seq![(o + base) as usize]);
                    assert((r_before + seq![(o + base) as usize]) + shifted(
                        osv.skip(t as int + 1),
                        base as nat,
                    ) =~= r_before + (seq![(o + base) as usize] + shifted(
                        osv.skip(t as int + 1),
                        base as nat,
                    )));
                }
            }
            t += 1;
        }
        proof {
            assert(osv.skip(m as int) =~= Seq::<usize>::empty());
            assert(r@ == r0 + shifted(osv, base as nat));
            // the next run starts after this one's characters
            lemma_concat_split(rv, k as int + 1);
            lemma_concat_split(rv.take(k as int + 1), k as int);
            assert(rv.take(k as int + 1).take(k as int) =~= rv.take(k as int));
            assert(rv.take(k as int + 1).skip(k as int) =~= seq![rv[k as int]]);
            let single = seq![rv[k as int]];
            assert(single.skip(1) =~= Seq::<Seq<char>>::empty());
            assert(concat_runs(single) == single[0] + concat_runs(single.skip(1)));
            assert(concat_runs(single) =~= rv[k as int]);
            assert(concat_runs(rv.take(k as int + 1)).len() == base + rv[k as int].len());
            assert(concat_runs(rv.take(k as int + 1)).len() <= total);
        }
        base += wl;
        k += 1;
    }
    proof {
        assert(rv.skip(n as int) =~= Seq::<Seq<char>>::empty());
    }
    r
}

/// A break clamped into the still-available range of the text.
pub open spec fn clamp_break(b: usize, prior: int, n: int) -> int {
    if b < prior {
        prior
    } else if b > n {
        n
    } else {
        b as int
    }
}

/// The cursor position after consuming `k` breaks, starting from `prior`.
pub open spec fn prior_at_from(t: Seq<char>, bs: Seq<usize>, prior: int, k: int) -> int
    decreases k,
{
    if k <= 0 || bs.len() == 0 {
        prior
    } else {
        prior_at_from(t, bs.skip(1), clamp_break(bs[0], prior, t.len() as int), k - 1)
    }
}

/// The cursor position after consuming the first `k` breaks of a text.
pub open spec fn prior_at(t: Seq<char>, bs: Seq<usize>, k: int) -> int {
    prior_at_from(t, bs, 0, k)
}

/// The segments of `t` cut at each break in turn, starting from `prior`:
/// always exactly one segment more than there are breaks.
pub open spec fn segments_from(t: Seq<char>, bs: Seq<usize>, prior: int) -> Seq<Seq<char>>
    decreases bs.len(),
{
    if !(0 <= prior <= t.len()) {
        Seq::empty()
    } else if bs.len() == 0 {
        seq![t.subrange(prior, t.len() as int)]
    } else {
        seq![t.subrange(prior, clamp_break(bs[0], prior, t.len() as int))] + segments_from(
            t,
            bs.skip(1),
            clamp_break(bs[0], prior, t.len() as int),
        )
    }
}

/// The segments of `t` cut at the breaks `bs`.
pub open spec fn segments(t: Seq<char>, bs: Seq<usize>) -> Seq<Seq<char>> {
    segments_from(t, bs, 0)
}

/// The parts joined with `mark` between each pair.
pub open spec fn join_with(parts: Seq<Seq<char>>, mark: Seq<char>) -> Seq<char>
    decreases parts.len(),
{
    if parts.len() == 0 {
        Seq::empty()
    } else if parts.len() == 1 {
        parts[0]
    } else {
        parts[0] + mark + join_with(parts.skip(1), mark)
    }
}

/// Exactly one more segment than breaks is produced, whatever the breaks.
pub proof fn lemma_segments_count(t: Seq<char>, bs: Seq<usize>, prior: int)
    requires
        0 <= prior <= t.len(),
    ensures
        segments_from(t, bs, prior).len() == bs.len() + 1,
    decreases bs.len(),
{
    if bs.len() > 0 {
        lemma_segments_count(t, bs.skip(1), clamp_break(bs[0], prior, t.len() as int));
    }
}

/// The segments cut at any break list partition the text: concatenated back
/// they reproduce exactly the part of the text they were cut from.
pub proof fn lemma_segments_concat(t: Seq<char>, bs: Seq<usize>, prior: int)
    requires
        0 <= prior <= t.len(),
    ensures
        concat_runs(segments_from(t, bs, prior)) == t.subrange(prior, t.len() as int),
    decreases bs.len(),
{
    if bs.len() == 0 {
        let s = segments_from(t, bs, prior);
        assert(s.skip(1) =~= Seq::<Seq<char>>::empty());
        assert(concat_runs(s) == s[0] + concat_runs(s.skip(1)));
        assert(concat_runs(s) =~= t.subrange(prior, t.len() as int));
    } else {
        let p2 = clamp_break(bs[0], prior, t.len() as int);
        lemma_segments_concat(t, bs.skip(1), p2);
        let s = segments_from(t, bs, prior);
        assert(s[0] == t.subrange(prior, p2));
        assert(s.skip(1) =~= segments_from(t, bs.skip(1), p2));
        assert(concat_runs(s) == s[0] + concat_runs(s.skip(1)));
        assert(t.subrange(prior, p2) + t.subrange(p2, t.len() as int) =~= t.subrange(
            prior,
            t.len() as int,
        ));
    }
}

proof fn lemma_join_empty_mark(parts: Seq<Seq<char>>)
    ensures
        join_with(parts, Seq::<char>::empty()) == concat_runs(parts),
    decreases parts.len(),
{
    if parts.len() == 1 {
        assert(parts.skip(1) =~= Seq::<Seq<char>>::empty());
        assert(concat_runs(parts) == parts[0] + concat_runs(parts.skip(1)));
        assert(concat_runs(parts) =~= parts[0]);
    } else if parts.len() > 1 {
        lemma_join_empty_mark(parts.skip(1));
        assert((parts[0] + Seq::<char>::empty()) + join_with(parts.skip(1), Seq::<char>::empty())
            =~= parts[0] + concat_runs(parts.skip(1)));
    }
}

/// Cutting a text at any break list and joining the segments back with the
/// empty mark reproduces the text exactly; with any mark, the segments still
/// concatenate to the text, so removing the inserted marks restores it.
pub proof fn lemma_hyphenate_round_trip(t: Seq<char>, bs: Seq<usize>)
    ensures
        concat_runs(segments(t, bs)) == t,
        join_with(segments(t, bs), Seq::<char>::empty()) == t,
{
    lemma_segments_concat(t, bs, 0);
    assert(t.subrange(0, t.len() as int) =~= t);
    lemma_join_empty_mark(segments(t, bs));
}

proof fn lemma_join_cons(parts: Seq<Seq<char>>, mark: Seq<char>)
    requires
        parts.len() >= 2,
    ensures
        join_with(parts, mark) == parts[0] + mark + join_with(parts.skip(1), mark),
{
}

proof fn lemma_segment_step(t: Seq<char>, bs: Seq<usize>, prior: int, k: int)
    requires
        0 <= prior <= t.len(),
        0 <= k < bs.len(),
    ensures
        prior <= prior_at_from(t, bs, prior, k) <= t.len(),
        prior_at_from(t, bs, prior, k + 1) == clamp_break(
            bs[k],
            prior_at_from(t, bs, prior, k),
            t.len() as int,
        ),
    decreases k,
{
    if k == 0 {
        assert(prior_at_from(t, bs, prior, 0) == prior);
        assert(prior_at_from(t, bs, prior, 1) == prior_at_from(
            t,
            bs.skip(1),
            clamp_break(bs[0], prior, t.len() as int),
            0,
        ));
    } else {
        let p2 = clamp_break(bs[0], prior, t.len() as int);
        lemma_segment_step(t, bs.skip(1), p2, k - 1);
        assert(bs.skip(1)[k - 1] == bs[k]);
    }
}

/// The produced text, one step of the state machine at a time: the segments
/// still owed, starting at the cursor.
pub open spec fn remaining_output(
    t: Seq<char>,
    bs: Seq<usize>,
    prior: int,
    cur: int,
    mark: Seq<char>,
) -> Seq<char> {
    if cur <= bs.len() {
        join_with(segments_from(t, bs.skip(cur), prior), mark)
    } else {
        Seq::empty()
    }
}

/// A lazy, non-restartable producer of text segments: each step emits the
/// text up to the next break, and one final step emits the tail.
pub struct StandardHyphenator<'a> {
    text: &'a str,
    possibilities: Vec<usize>,
    prior: usize,
    current: usize,
}

impl<'a> StandardHyphenator<'a> {
    pub closed spec fn spec_text(self) -> Seq<char> {
        self.text@
    }

    pub closed spec fn spec_breaks(self) -> Seq<usize> {
        self.possibilities@
    }

    pub closed spec fn spec_prior(self) -> usize {
        self.prior
    }

    pub closed spec fn spec_current(self) -> usize {
        self.current
    }

    /// The cursor has consumed `current` breaks and `prior` is where the
    /// next segment starts.
    pub closed spec fn wf(self) -> bool {
        &&& self.prior <= self.text@.len()
        &&& self.current <= self.possibilities@.len() + 1
        &&& self.current <= self.possibilities@.len() ==> self.prior as int == prior_at(
            self.text@,
            self.possibilities@,
            self.current as int,
        )
    }

    /// One step: the segment up to the next break, or the tail, or nothing
    /// once the tail has been emitted.
    pub fn next(&mut self) -> (r: Option<&'a str>)
        requires
            old(self).wf(),
            old(self).spec_breaks().len() < usize::MAX,
        ensures
            final(self).wf(),
            final(self).spec_text() == old(self).spec_text(),
            final(self).spec_breaks() == old(self).spec_breaks(),
            old(self).spec_current() <= old(self).spec_breaks().len() ==> {
                &&& r is Some
                &&& r->Some_0@ == segments(old(self).spec_text(), old(self).spec_breaks())[
                old(self).spec_current() as int]
                &&& final(self).spec_current() == old(self).spec_current() + 1
            },
            old(self).spec_current() > old(self).spec_breaks().len() ==> r is None && *final(self)
                == *old(self),
    {
        let n_breaks = self.possibilities.len();
        let cur = self.current;
        if cur < n_breaks {
            let n = self.text.unicode_len();
            let b = self.possibilities[cur];
            let p2 = if b < self.prior {
                self.prior
            } else if b > n {
                n
            } else {
                b
            };
            proof {
                lemma_prior_at_segment(self.text@, self.possibilities@, cur as int);
                lemma_segment_step(self.text@, self.possibilities@, 0, cur as int);
            }
            let seg = self.text.substring_char(self.prior, p2);
            self.prior = p2;
            self.current = cur + 1;
            Some(seg)
        } else if cur == n_breaks {
            proof {
                lemma_prior_at_segment(self.text@, self.possibilities@, cur as int);
            }
            let seg = self.text.substring_char(self.prior, self.text.unicode_len());
            self.current = cur + 1;
            Some(seg)
        } else {
            None
        }
    }

    /// The remaining segments joined with `mark`.
    pub fn hyphenate_with(self, mark: &str) -> (out: String)
        requires
            self.wf(),
        ensures
            out@ == remaining_output(
                self.spec_text(),
                self.spec_breaks(),
                self.spec_prior() as int,
                self.spec_current() as int,
                mark@,
            ),
    {
        let ghost t = self.text@;
        let ghost bs = self.possibilities@;
        let n_breaks = self.possibilities.len();
        if self.current > n_breaks {
            return String::new();
        }
        let n = self.text.unicode_len();
        let mut out = String::new();
        let mut prior = self.prior;
        let mut k = self.current;
        let ghost cur0 = self.current as int;
        let ghost prior0 = self.prior as int;
        while k < n_breaks
            invariant
                n_breaks == bs.len(),
                self.possibilities@ == bs,
                self.text@ == t,
                n == t.len(),
                cur0 <= k <= n_breaks,
                prior <= n,
                join_with(segments_from(t, bs.skip(cur0), prior0), mark@) == out@ + join_with(
                    segments_from(t, bs.skip(k as int), prior as int),
                    mark@,
                ),
            decreases n_breaks - k,
        {
            let b = self.possibilities[k];
            let p2 = if b < prior {
                prior
            } else if b > n {
                n
            } else {
                b
            };
            let ghost out0 = out@;
            let seg = self.text.substring_char(prior, p2);
            out.append(seg);
            out.append(mark);
            proof {
                assert(out@ == (out0 + seg@) + mark@);
                let rest = segments_from(t, bs.skip(k as int), prior as int);
                assert(bs.skip(k as int)[0] == bs[k as int]);
                assert(bs.skip(k as int).skip(1) == bs.skip(k as int + 1));
                assert(rest[0] == t.subrange(prior as int, p2 as int));
                assert(rest.skip(1) =~= segments_from(t, bs.skip(k as int + 1), p2 as int));
                lemma_segments_count(t, bs.skip(k as int + 1), p2 as int);
                lemma_join_cons(rest, mark@);
                assert(out@ =~= (out0 + t.subrange(prior as int, p2 as int)) + mark@);
                assert(out0 + ((t.subrange(prior as int, p2 as int) + mark@) + join_with(
                    rest.skip(1),
                    mark@,
                )) =~= (out0 + t.subrange(prior as int, p2 as int) + mark@) + join_with(
                    rest.skip(1),
                    mark@,
                ));
            }
            prior = p2;
            k += 1;
        }
        let tail = self.text.substring_char(prior, n);
        let ghost out0 = out@;
        out.append(tail);
        proof {
            let rest = segments_from(t, bs.skip(k as int), prior as int);
            assert(bs.skip(k as int) =~= Seq::<usize>::empty());
            assert(rest =~= seq![t.subrange(prior as int, n as int)]);
            assert(join_with(rest, mark@) == rest[0]);
        }
        out
    }

    /// The remaining segments joined with the soft hyphen U+00AD.
    pub fn hyphenate(self) -> (out: String)
        requires
            self.wf(),
        ensures
            out@ == remaining_output(
                self.spec_text(),
                self.spec_breaks(),
                self.spec_prior() as int,
                self.spec_current() as int,
                "\u{ad}"@,
            ),
    {
        self.hyphenate_with("\u{ad}")
    }
}

proof fn lemma_prior_at_segment(t: Seq<char>, bs: Seq<usize>, k: int)
    requires
        0 <= k <= bs.len(),
    ensures
        0 <= prior_at(t, bs, k) <= t.len(),
        k < bs.len() ==> segments(t, bs)[k] == t.subrange(
            prior_at(t, bs, k),
            clamp_break(bs[k], prior_at(t, bs, k), t.len() as int),
        ),
        k == bs.len() ==> segments(t, bs)[k] == t.subrange(prior_at(t, bs, k), t.len() as int),
{
    lemma_segment_at_from(t, bs, 0, k);
}

proof fn lemma_segment_at_from(t: Seq<char>, bs: Seq<usize>, prior: int, k: int)
    requires
        0 <= prior <= t.len(),
        0 <= k <= bs.len(),
    ensures
        prior <= prior_at_from(t, bs, prior, k) <= t.len(),
        k < bs.len() ==> segments_from(t, bs, prior)[k] == t.subrange(
            prior_at_from(t, bs, prior, k),
            clamp_break(bs[k], prior_at_from(t, bs, prior, k), t.len() as int),
        ),
        k == bs.len() ==> segments_from(t, bs, prior)[k] == t.subrange(
            prior_at_from(t, bs, prior, k),
            t.len() as int,
        ),
    decreases k,
{
    if k == 0 || bs.len() == 0 {
        assert(prior_at_from(t, bs, prior, k) == prior);
    } else {
        let p2 = clamp_break(bs[0], prior, t.len() as int);
        lemma_segment_at_from(t, bs.skip(1), p2, k - 1);
        lemma_segments_count(t, bs.skip(1), p2);
        let s = segments_from(t, bs, prior);
        let rest = segments_from(t, bs.skip(1), p2);
        assert(s == seq![t.subrange(prior, p2)] + rest);
        assert(s[k] == rest[k - 1]);
        if k < bs.len() {
            assert(bs.skip(1)[k - 1] == bs[k]);
        }
    }
}

/// A hyphenator for one word: its break offsets come from the corpus alone.
pub fn mark_word<'a>(text: &'a str, corpus: &Corpus) -> (h: StandardHyphenator<'a>)
    requires
        corpus.wf(),
    ensures
        h.wf(),
        h.spec_text() == text@,
        h.spec_breaks() == corpus.word_indices(text@),
        h.spec_prior() == 0,
        h.spec_current() == 0,
{
    let possibilities = possibilities_word(text, corpus);
    StandardHyphenator { text, possibilities, prior: 0, current: 0 }
}

/// A hyphenator for whole text: word runs are found by Unicode segmentation
/// and each run's offsets are shifted to its place in the text.
pub fn mark<'a>(text: &'a str, corpus: &Corpus) -> (h: StandardHyphenator<'a>)
    requires
        corpus.wf(),
    ensures
        h.wf(),
        h.spec_text() == text@,
        h.spec_breaks() == text_indices(*corpus, text@),
        h.spec_prior() == 0,
        h.spec_current() == 0,
{
    let possibilities = possibilities(text, corpus);
    StandardHyphenator { text, possibilities, prior: 0, current: 0 }
}

} // verus!
