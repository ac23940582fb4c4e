//! A standalone word hyphenator: a trie of patterns and a fixed delimiter,
//! splitting single words into their permitted parts.

use vstd::prelude::*;
use vstd::string::StrSliceExecFns;
use crate::trie::{Trie, fetch_seq};
use crate::corpus::{breaks_from, padded, insert_tokens, count_valid};
use crate::hyphenate::{segments, segments_from, clamp_break, join_with};
use crate::text::{char_to_string, split_whitespace_tokens, ws_tokens_of};

verus! {

/// The break offsets a pattern set grants inside one word, margins not
/// applied: every position with an even nonzero weight, the word end
/// included.
pub open spec fn word_breaks(pats: Map<Seq<char>, Seq<usize>>, w: Seq<char>) -> Seq<usize> {
    breaks_from(fetch_seq(pats, padded(w)), w.len() as int + 1, 0)
}

/// A word hyphenator: patterns and the delimiter its rendered words carry.
pub struct Hyphen {
    trie: Trie,
    delimiter: char,
}

impl Hyphen {
    /// The stored patterns: letter path to weight vector.
    pub closed spec fn pats(self) -> Map<Seq<char>, Seq<usize>> {
        self.trie.pats()
    }

    pub closed spec fn spec_count(self) -> usize {
        self.trie.spec_count()
    }

    pub closed spec fn spec_delimiter(self) -> char {
        self.delimiter
    }

    pub closed spec fn wf(self) -> bool {
        self.trie.wf()
    }

    fn new() -> (h: Hyphen)
        ensures
            h.wf(),
            h.pats() == Map::<Seq<char>, Seq<usize>>::empty(),
            h.spec_count() == 0,
            h.spec_delimiter() == '-',
    {
        Hyphen { trie: Trie::new(), delimiter: '-' }
    }

    /// A hyphenator built from whitespace-separated patterns; tokens that
    /// are not valid patterns are skipped.
    pub fn from_string(patterns: &str) -> (h: Hyphen)
        ensures
            h.wf(),
            h.pats() == insert_tokens(
                Map::<Seq<char>, Seq<usize>>::empty(),
                ws_tokens_of(patterns@),
            ),
            h.spec_count() as nat == count_valid(ws_tokens_of(patterns@)),
            h.spec_delimiter() == '-',
    {
        let toks = split_whitespace_tokens(patterns);
        let ghost tv = ws_tokens_of(patterns@);
        let mut h = Hyphen::new();
        let n = toks.len();
        proof {
            assert(tv.skip(0) == tv);
            assert(tv.len() == toks@.len());
        }
        let mut k: usize = 0;
        while k < n
            invariant
                h.wf(),
                n == toks@.len(),
                k <= n,
                tv == toks@.map_values(|t: String| t@),
                h.spec_delimiter() == '-',
                insert_tokens(Map::<Seq<char>, Seq<usize>>::empty(), tv) == insert_tokens(
                    h.pats(),
                    tv.skip(k as int),
                ),
                h.spec_count() as nat + count_valid(tv.skip(k as int)) == count_valid(tv),
                h.spec_count() <= k,
            decreases n - k,
        {
            proof {
                assert(tv.skip(k as int)[0] == tv[k as int]);
                assert(tv[k as int] == toks@[k as int]@);
                assert(tv.skip(k as int).skip(1) == tv.skip(k as int + 1));
            }
            let _ = h.trie.insert(toks[k].as_str());
            k += 1;
        }
        proof {
            assert(tv.skip(n as int) =~= Seq::<Seq<char>>::empty());
        }
        h
    }

    /// How many patterns have been accepted, duplicates counted again.
    pub fn get_pattern_count(&self) -> (r: usize)
        ensures
            r == self.spec_count(),
    {
        self.trie.count()
    }

    /// The word split at every position whose pattern weight is even and
    /// nonzero, no margins applied.
    pub fn hyphenate_word<'a>(&self, word: &'a str) -> (hw: HyphenatedWord<'a>)
        requires
            self.wf(),
        ensures
            hw.spec_parts() == segments(word@, word_breaks(self.pats(), word@)),
            hw.spec_delimiter() == self.spec_delimiter(),
    {
        let w = crate::text::chars_of(word);
        let wlen = w.len();
        let mut pw: Vec<char> = Vec::new();
        pw.push('.');
        let mut w2 = w;
        pw.append(&mut w2);
        pw.push('.');
        proof {
            assert(pw@ =~= padded(word@));
        }
        let pts = self.trie.fetch(&pw);
        let ghost ws = pts@;
        let ptslen = pts.len();
        proof {
            assert(ws == fetch_seq(self.pats(), padded(word@)));
            assert(ws.len() == wlen + 2);
        }
        let ghost hi_spec: int = wlen as int + 1;
        let mut o: usize = 0;
        let mut bs: Vec<usize> = Vec::new();
        proof {
            assert(breaks_from(ws, hi_spec, 0) == bs@ + breaks_from(ws, hi_spec, o as int));
        }
        while o <= wlen
            invariant
                ws.len() == wlen + 2,
                pts@ == ws,
                ptslen == wlen + 2,
                hi_spec == wlen + 1,
                o <= wlen + 1,
                breaks_from(ws, hi_spec, 0) == bs@ + breaks_from(ws, hi_spec, o as int),
            decreases wlen + 1 - o,
        {
            let v = pts[o + 1];
            let ghost bs_old = bs@;
            if v > 0 && v % 2 == 0 {
                bs.push(o);
            }
            proof {
                let step = if crate::corpus::break_allowed(ws, o as int) {
                    seq![o]
                } else {
                    Seq::<usize>::empty()
                };
                assert(crate::corpus::break_allowed(ws, o as int) == (v > 0 && v % 2 == 0));
                assert(breaks_from(ws, hi_spec, o as int) == step + breaks_from(
                    ws,
                    hi_spec,
                    o as int + 1,
                ));
                assert(bs@ =~= bs_old + step);
                assert((bs_old + step) + breaks_from(ws, hi_spec, o as int + 1) =~= bs_old + (step
                    + breaks_from(ws, hi_spec, o as int + 1)));
            }
            o += 1;
        }
        proof {
            assert(breaks_from(ws, hi_spec, o as int) =~= Seq::<usize>::empty());
            assert(bs@ == word_breaks(self.pats(), word@));
        }
        let ghost bsv = bs@;
        let n = word.unicode_len();
        let nb = bs.len();
        let mut parts: Vec<&'a str> = Vec::new();
        let mut prior: usize = 0;
        let mut k: usize = 0;
        proof {
            assert(bsv.skip(0) == bsv);
        }
        while k < nb
            invariant
                nb == bsv.len(),
                bs@ == bsv,
                n == word@.len(),
                k <= nb,
                prior <= n,
                segments(word@, bsv) == parts@.map_values(|p: &str| p@) + segments_from(
                    word@,
                    bsv.skip(k as int),
                    prior as int,
                ),
            decreases nb - k,
        {
            let b = bs[k];
            let p2 = if b < prior {
                prior
            } else if b > n {
                n
            } else {
                b
            };
            let ghost parts_old = parts@.map_values(|p: &str| p@);
            let seg = word.substring_char(prior, p2);
            parts.push(seg);
            proof {
                assert(bsv.skip(k as int)[0] == bsv[k as int]);
                assert(bsv.skip(k as int).skip(1) == bsv.skip(k as int + 1));
                let rest = segments_from(word@, bsv.skip(k as int), prior as int);
                assert(p2 as int == clamp_break(bsv[k as int], prior as int, word@.len() as int));
                assert(rest == seq![word@.subrange(prior as int, p2 as int)] + segments_from(
                    word@,
                    bsv.skip(k as int + 1),
                    p2 as int,
                ));
                assert(parts@.map_values(|p: &str| p@) =~= parts_old + seq![seg@]);
                assert((parts_old + seq![seg@]) + segments_from(
                    word@,
                    bsv.skip(k as int + 1),
                    p2 as int,
                ) =~= parts_old + (seq![seg@] + segments_from(
                    word@,
                    bsv.skip(k as int + 1),
                    p2 as int,
                )));
            }
            prior = p2;
            k += 1;
        }
        let tail = word.substring_char(prior, n);
        let ghost parts_old = parts@.map_values(|p: &str| p@);
        parts.push(tail);
        proof {
            assert(bsv.skip(nb as int) =~= Seq::<usize>::empty());
            let rest = segments_from(word@, bsv.skip(nb as int), prior as int);
            assert(rest =~= seq![word@.subrange(prior as int, n as int)]);
            assert(parts@.map_values(|p: &str| p@) =~= parts_old + seq![tail@]);
            assert(parts_old + rest =~= parts@.map_values(|p: &str| p@));
        }
        HyphenatedWord { parts, delimiter: self.delimiter }
    }
}

/// A word split into its permitted parts, rendered by joining them with the
/// delimiter.
pub struct HyphenatedWord<'a> {
    /// The consecutive parts of the word, in order.
    pub parts: Vec<&'a str>,
    delimiter: char,
}

impl<'a> HyphenatedWord<'a> {
    pub closed spec fn spec_delimiter(self) -> char {
        self.delimiter
    }

    /// The parts as character sequences.
    pub closed spec fn spec_parts(self) -> Seq<Seq<char>> {
        self.parts@.map_values(|p: &str| p@)
    }

    /// The parts joined with the delimiter.
    pub fn join(&self) -> (out: String)
        ensures
            out@ == join_with(self.spec_parts(), seq![self.spec_delimiter()]),
    {
        let mark = char_to_string(self.delimiter);
        let ghost pv = self.parts@.map_values(|p: &str| p@);
        let n = self.parts.len();
        let mut out = String::new();
        if n == 0 {
            return out;
        }
        let mut k: usize = 0;
        proof {
            assert(pv.skip(0) == pv);
            assert(join_with(pv, mark@) == out@ + join_with(pv.skip(0), mark@));
        }
        while k < n - 1
            invariant
                n == pv.len(),
                n == self.parts@.len(),
                1 <= n,
                k <= n - 1,
                mark@ == seq![self.spec_delimiter()],
                pv == self.parts@.map_values(|p: &str| p@),
                join_with(pv, mark@) == out@ + join_with(pv.skip(k as int), mark@),
            decreases n - k,
        {
            let ghost out0 = out@;
            out.append(self.parts[k]);
            out.append(mark.as_str());
            proof {
                let rest = pv.skip(k as int);
                assert(rest[0] == pv[k as int]);
                assert(rest.skip(1) == pv.skip(k as int + 1));
                assert(rest.len() >= 2);
                assert(join_with(rest, mark@) == rest[0] + mark@ + join_with(
                    rest.skip(1),
                    mark@,
                ));
                assert(pv[k as int] == self.parts@[k as int]@);
                assert(out@ =~= out0 + pv[k as int] + mark@);
                assert(out0 + ((pv[k as int] + mark@) + join_with(rest.skip(1), mark@)) =~= (out0
                    + pv[k as int] + mark@) + join_with(rest.skip(1), mark@));
            }
            k += 1;
        }
        let ghost out0 = out@;
        out.append(self.parts[k]);
        proof {
            let rest = pv.skip(k as int);
            assert(rest.len() == 1);
            assert(rest[0] == pv[k as int]);
            assert(join_with(rest, mark@) == rest[0]);
            assert(pv[k as int] == self.parts@[k as int]@);
        }
        out
    }
}

impl<'a> From<HyphenatedWord<'a>> for String {
    fn from(word: HyphenatedWord<'a>) -> (out: String) {
        word.join()
    }
}

impl<'a> vstd::std_specs::convert::FromSpecImpl<HyphenatedWord<'a>> for String {
    open spec fn obeys_from_spec() -> bool {
        false
    }

    open spec fn from_spec(word: HyphenatedWord<'a>) -> Self {
        arbitrary()
    }
}

} // verus!
