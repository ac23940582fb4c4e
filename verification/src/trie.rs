//! The weighted trie: patterns are letter paths annotated with per-position
//! weights, and `fetch` combines every pattern matching at every starting
//! offset of a character sequence by elementwise maximum.

use vstd::prelude::*;

verus! {

/// An ASCII decimal digit, the only characters of a pattern that carry weight.
pub open spec fn is_digit(c: char) -> bool {
    48 <= c as u32 <= 57
}

/// The numeric value of an ASCII digit.
pub open spec fn digit_val(c: char) -> usize {
    (c as u32 - 48) as usize
}

/// A pattern is valid when it is nonempty and does not begin with a digit.
pub open spec fn valid_pattern(p: Seq<char>) -> bool {
    p.len() > 0 && !is_digit(p[0])
}

/// The letter path of a pattern: its characters with the digits removed.
pub open spec fn letters_of(p: Seq<char>) -> Seq<char>
    decreases p.len(),
{
    if p.len() == 0 {
        Seq::empty()
    } else if is_digit(p[0]) {
        letters_of(p.skip(1))
    } else {
        seq![p[0]] + letters_of(p.skip(1))
    }
}

/// The weight entries accumulated while walking the characters after the
/// first letter. A digit contributes its value; a letter contributes an
/// implicit 0 unless the character just before it was a digit.
pub open spec fn weights_rest(p: Seq<char>, inc: bool) -> Seq<usize>
    decreases p.len(),
{
    if p.len() == 0 {
        Seq::empty()
    } else if is_digit(p[0]) {
        seq![digit_val(p[0])] + weights_rest(p.skip(1), false)
    } else if inc {
        seq![0usize] + weights_rest(p.skip(1), true)
    } else {
        weights_rest(p.skip(1), true)
    }
}

/// The weight vector stored for a valid pattern: a leading 0 for the position
/// before the first letter, then the entries accumulated over the rest.
pub open spec fn weights_of(p: Seq<char>) -> Seq<usize> {
    seq![0usize] + weights_rest(p.skip(1), true)
}

/// Why an input was rejected by `insert`.
#[derive(Debug, PartialEq, Eq, Structural, Clone, Copy)]
pub enum PatternError {
    /// The pattern was the empty string.
    Empty,
    /// The pattern began with a digit, so there is no position the leading
    /// weight could attach to.
    LeadingDigit,
}

fn char_digit(c: char) -> (r: Option<usize>)
    ensures
        r == if is_digit(c) {
            Some(digit_val(c))
        } else {
            None::<usize>
        },
{
    let u = c as u32;
    if 48 <= u && u <= 57 {
        Some((u - 48) as usize)
    } else {
        None
    }
}

/// Splits a valid pattern into its letter path and its weight vector;
/// rejects an empty or digit-led pattern.
fn parse_pattern(p: &Vec<char>) -> (r: Option<(Vec<char>, Vec<usize>)>)
    ensures
        match r {
            Some(lw) => valid_pattern(p@) && lw.0@ == letters_of(p@) && lw.1@ == weights_of(p@),
            None => !valid_pattern(p@),
        },
{
    if p.len() == 0 {
        return None;
    }
    if char_digit(p[0]).is_some() {
        return None;
    }
    let mut letters: Vec<char> = Vec::new();
    letters.push(p[0]);
    let mut weights: Vec<usize> = Vec::new();
    weights.push(0);
    let mut inc: bool = true;
    let mut k: usize = 1;
    proof {
        assert(p@.skip(0) == p@);
        assert(letters_of(p@) == seq![p@[0]] + letters_of(p@.skip(1)));
        assert(letters@ == seq![p@[0]]);
        assert(weights@ == seq![0usize]);
    }
    while k < p.len()
        invariant
            1 <= k <= p@.len(),
            letters_of(p@) == letters@ + letters_of(p@.skip(k as int)),
            weights_of(p@) == weights@ + weights_rest(p@.skip(k as int), inc),
            valid_pattern(p@),
        decreases p@.len() - k,
    {
        let c = p[k];
        proof {
            assert(p@.skip(k as int)[0] == p@[k as int]);
            assert(p@.skip(k as int).skip(1) == p@.skip(k as int + 1));
        }
        match char_digit(c) {
            Some(d) => {
                weights.push(d);
                inc = false;
            },
            None => {
                letters.push(c);
                if inc {
                    weights.push(0);
                }
                inc = true;
            },
        }
        k += 1;
    }
    proof {
        assert(p@.skip(p@.len() as int) == Seq::<char>::empty());
    }
    Some((letters, weights))
}

/// A pattern stored in `pats` matches `chars` at start `i` with `len` letters
/// and covers position `j` with one of its weight entries.
pub open spec fn contrib_at(
    pats: Map<Seq<char>, Seq<usize>>,
    chars: Seq<char>,
    i: int,
    len: int,
    j: int,
) -> bool {
    &&& 0 <= i <= j < chars.len()
    &&& 0 <= len
    &&& i + len <= chars.len()
    &&& pats.contains_key(chars.subrange(i, i + len))
    &&& j - i < pats[chars.subrange(i, i + len)].len()
}

/// The weight that this match contributes at position `j`.
pub open spec fn contrib_val(
    pats: Map<Seq<char>, Seq<usize>>,
    chars: Seq<char>,
    i: int,
    len: int,
    j: int,
) -> usize {
    pats[chars.subrange(i, i + len)][j - i]
}

/// The matches already considered when the scan has finished every start
/// before `ib` and, at start `ib`, every match of at most `lb` letters.
pub open spec fn in_scan_range(i: int, len: int, ib: int, lb: int) -> bool {
    i < ib || (i == ib && len <= lb)
}

/// `v` is the greatest weight contributed at position `j` by any match in
/// the scan range, or 0 when no match covers `j`.
pub open spec fn max_upto(
    pats: Map<Seq<char>, Seq<usize>>,
    chars: Seq<char>,
    j: int,
    v: usize,
    ib: int,
    lb: int,
) -> bool {
    &&& (v == 0 || exists|i: int, len: int|
        in_scan_range(i, len, ib, lb) && #[trigger] contrib_at(pats, chars, i, len, j)
            && contrib_val(pats, chars, i, len, j) == v)
    &&& forall|i: int, len: int|
        in_scan_range(i, len, ib, lb) && #[trigger] contrib_at(pats, chars, i, len, j)
            ==> contrib_val(pats, chars, i, len, j) <= v
}

/// `v` is the greatest weight contributed at position `j` by any stored
/// pattern matching anywhere in `chars`, or 0 when none covers `j`.
pub open spec fn max_weight(
    pats: Map<Seq<char>, Seq<usize>>,
    chars: Seq<char>,
    j: int,
    v: usize,
) -> bool {
    max_upto(pats, chars, j, v, chars.len() as int, 0)
}

/// The weight array that `fetch` returns, position by position.
pub open spec fn fetch_val(pats: Map<Seq<char>, Seq<usize>>, chars: Seq<char>, j: int) -> usize {
    choose|v: usize| max_weight(pats, chars, j, v)
}

/// The weight array that `fetch` returns.
pub open spec fn fetch_seq(pats: Map<Seq<char>, Seq<usize>>, chars: Seq<char>) -> Seq<usize> {
    Seq::new(chars.len(), |j: int| fetch_val(pats, chars, j))
}

/// At each position the greatest contributed weight is unique.
pub proof fn lemma_max_weight_unique(
    pats: Map<Seq<char>, Seq<usize>>,
    chars: Seq<char>,
    j: int,
    v1: usize,
    v2: usize,
)
    requires
        max_weight(pats, chars, j, v1),
        max_weight(pats, chars, j, v2),
    ensures
        v1 == v2,
{
    if v1 != 0 {
        let (i1, l1) = choose|i: int, len: int|
            in_scan_range(i, len, chars.len() as int, 0) && #[trigger] contrib_at(
                pats,
                chars,
                i,
                len,
                j,
            ) && contrib_val(pats, chars, i, len, j) == v1;
        assert(v1 <= v2);
    }
    if v2 != 0 {
        let (i2, l2) = choose|i: int, len: int|
            in_scan_range(i, len, chars.len() as int, 0) && #[trigger] contrib_at(
                pats,
                chars,
                i,
                len,
                j,
            ) && contrib_val(pats, chars, i, len, j) == v2;
        assert(v2 <= v1);
    }
}

/// Any value satisfying `max_weight` is the value of `fetch_val`.
pub proof fn lemma_fetch_val(pats: Map<Seq<char>, Seq<usize>>, chars: Seq<char>, j: int, v: usize)
    requires
        max_weight(pats, chars, j, v),
    ensures
        fetch_val(pats, chars, j) == v,
{
    lemma_max_weight_unique(pats, chars, j, v, fetch_val(pats, chars, j));
}

proof fn lemma_step_depth(
    pats: Map<Seq<char>, Seq<usize>>,
    chars: Seq<char>,
    j: int,
    v: usize,
    ib: int,
    d: int,
)
    requires
        max_upto(pats, chars, j, v, ib, d - 1),
        !contrib_at(pats, chars, ib, d, j),
    ensures
        max_upto(pats, chars, j, v, ib, d),
{
    assert forall|i: int, len: int|
        in_scan_range(i, len, ib, d) && #[trigger] contrib_at(pats, chars, i, len, j)
            implies contrib_val(pats, chars, i, len, j) <= v by {
        if !in_scan_range(i, len, ib, d - 1) {
            assert(i == ib && len == d);
        }
    }
    if v != 0 {
        let (i0, l0) = choose|i: int, len: int|
            in_scan_range(i, len, ib, d - 1) && #[trigger] contrib_at(pats, chars, i, len, j)
                && contrib_val(pats, chars, i, len, j) == v;
        assert(in_scan_range(i0, l0, ib, d));
    }
}

proof fn lemma_advance_start(
    pats: Map<Seq<char>, Seq<usize>>,
    chars: Seq<char>,
    j: int,
    v: usize,
    ib: int,
    d: int,
)
    requires
        max_upto(pats, chars, j, v, ib, d),
        forall|len: int| len > d ==> !contrib_at(pats, chars, ib, len, j),
    ensures
        max_upto(pats, chars, j, v, ib + 1, -1),
{
    assert forall|i: int, len: int|
        in_scan_range(i, len, ib + 1, -1) && #[trigger] contrib_at(pats, chars, i, len, j)
            implies contrib_val(pats, chars, i, len, j) <= v by {
        if !in_scan_range(i, len, ib, d) {
            assert(i == ib && len > d);
        }
    }
    if v != 0 {
        let (i0, l0) = choose|i: int, len: int|
            in_scan_range(i, len, ib, d) && #[trigger] contrib_at(pats, chars, i, len, j)
                && contrib_val(pats, chars, i, len, j) == v;
        assert(in_scan_range(i0, l0, ib + 1, -1));
    }
}

proof fn lemma_scan_done(pats: Map<Seq<char>, Seq<usize>>, chars: Seq<char>, j: int, v: usize)
    requires
        max_upto(pats, chars, j, v, chars.len() as int, -1),
    ensures
        max_weight(pats, chars, j, v),
{
    assert forall|i: int, len: int|
        in_scan_range(i, len, chars.len() as int, 0) && #[trigger] contrib_at(
            pats,
            chars,
            i,
            len,
            j,
        ) implies contrib_val(pats, chars, i, len, j) <= v by {
        if !in_scan_range(i, len, chars.len() as int, -1) {
            assert(i == chars.len() && i <= j < chars.len());
        }
    }
    if v != 0 {
        let (i0, l0) = choose|i: int, len: int|
            in_scan_range(i, len, chars.len() as int, -1) && #[trigger] contrib_at(
                pats,
                chars,
                i,
                len,
                j,
            ) && contrib_val(pats, chars, i, len, j) == v;
        assert(in_scan_range(i0, l0, chars.len() as int, 0));
    }
}

proof fn lemma_weights_rest_zero(p: Seq<char>, inc: bool)
    requires
        forall|k: int| 0 <= k < p.len() ==> !is_digit(#[trigger] p[k]),
    ensures
        forall|k: int|
            0 <= k < weights_rest(p, inc).len() ==> weights_rest(p, inc)[k] == 0,
    decreases p.len(),
{
    if p.len() > 0 {
        assert(!is_digit(p[0]));
        assert(forall|k: int| 0 <= k < p.skip(1).len() ==> p.skip(1)[k] == p[k + 1]);
        lemma_weights_rest_zero(p.skip(1), true);
        let rest = weights_rest(p.skip(1), true);
        if inc {
            assert(weights_rest(p, inc) == seq![0usize] + rest);
            assert forall|k: int|
                0 <= k < weights_rest(p, inc).len() implies weights_rest(p, inc)[k] == 0 by {
                if k > 0 {
                    assert(weights_rest(p, inc)[k] == rest[k - 1]);
                }
            }
        } else {
            assert(weights_rest(p, inc) == rest);
        }
    }
}

/// A pattern without digits stores only zero weights, so a sequence matched
/// by it alone keeps weight 0 at every position: it enables no break.
pub proof fn lemma_digitless_pattern_all_zero(p: Seq<char>, chars: Seq<char>, j: int, v: usize)
    requires
        valid_pattern(p),
        forall|k: int| 0 <= k < p.len() ==> !is_digit(#[trigger] p[k]),
        max_weight(
            Map::<Seq<char>, Seq<usize>>::empty().insert(letters_of(p), weights_of(p)),
            chars,
            j,
            v,
        ),
    ensures
        v == 0,
{
    let pats = Map::<Seq<char>, Seq<usize>>::empty().insert(letters_of(p), weights_of(p));
    if v != 0 {
        let (i0, l0) = choose|i: int, len: int|
            in_scan_range(i, len, chars.len() as int, 0) && #[trigger] contrib_at(
                pats,
                chars,
                i,
                len,
                j,
            ) && contrib_val(pats, chars, i, len, j) == v;
        assert(pats[chars.subrange(i0, i0 + l0)] == weights_of(p));
        lemma_weights_rest_zero(p.skip(1), true);
        assert(weights_of(p)[j - i0] == 0);
    }
}

/// Overlapping matches combine by elementwise maximum: the fetched value at
/// a position dominates every match's weight there and is itself some
/// match's weight — never a sum, and never only the latest insertion.
pub proof fn lemma_fetch_elementwise_max(
    pats: Map<Seq<char>, Seq<usize>>,
    chars: Seq<char>,
    rj: usize,
    i1: int,
    l1: int,
    i2: int,
    l2: int,
    j: int,
)
    requires
        max_weight(pats, chars, j, rj),
        contrib_at(pats, chars, i1, l1, j),
        contrib_at(pats, chars, i2, l2, j),
    ensures
        contrib_val(pats, chars, i1, l1, j) <= rj,
        contrib_val(pats, chars, i2, l2, j) <= rj,
        exists|i: int, len: int|
            #[trigger] contrib_at(pats, chars, i, len, j) && contrib_val(pats, chars, i, len, j)
                == rj,
{
    assert(in_scan_range(i1, l1, chars.len() as int, 0));
    assert(in_scan_range(i2, l2, chars.len() as int, 0));
    if rj == 0 {
        assert(contrib_val(pats, chars, i1, l1, j) == 0);
    } else {
        let (i0, l0) = choose|i: int, len: int|
            in_scan_range(i, len, chars.len() as int, 0) && #[trigger] contrib_at(
                pats,
                chars,
                i,
                len,
                j,
            ) && contrib_val(pats, chars, i, len, j) == rj;
        assert(contrib_at(pats, chars, i0, l0, j) && contrib_val(pats, chars, i0, l0, j) == rj);
    }
}

/// One state of the trie: the letters that may follow this one, each with the
/// arena index of the node it leads to, and the weight vector recorded when a
/// pattern whose letter path ends here was inserted.
struct TrieNode {
    children: Vec<(char, usize)>,
    weights: Option<Vec<usize>>,
    path: Ghost<Seq<char>>,
}

/// The weighted trie. Nodes live in an arena; index 0 is the root, which
/// stands for the empty letter path.
pub struct Trie {
    nodes: Vec<TrieNode>,
    count: usize,
}

/// The arena index that `c` leads to among the child entries `ch`.
spec fn find_child(ch: Seq<(char, usize)>, c: char) -> Option<usize>
    decreases ch.len(),
{
    if ch.len() == 0 {
        None
    } else if ch[0].0 == c {
        Some(ch[0].1)
    } else {
        find_child(ch.skip(1), c)
    }
}

impl Trie {
    /// The node reached from node `i` by following `path`, if every
    /// transition along the way exists.
    spec fn node_at_from(self, i: int, path: Seq<char>) -> Option<int>
        decreases path.len(),
    {
        if !(0 <= i < self.nodes.len()) {
            None
        } else if path.len() == 0 {
            Some(i)
        } else {
            match find_child(self.nodes[i].children@, path[0]) {
                None => None,
                Some(j) => self.node_at_from(j as int, path.skip(1)),
            }
        }
    }

    spec fn node_at(self, path: Seq<char>) -> Option<int> {
        self.node_at_from(0, path)
    }

    spec fn has_pat(self, path: Seq<char>) -> bool {
        match self.node_at(path) {
            Some(n) => self.nodes[n].weights is Some,
            None => false,
        }
    }

    /// The mathematical content of the trie: the map from each stored letter
    /// path to its weight vector.
    pub closed spec fn pats(self) -> Map<Seq<char>, Seq<usize>> {
        Map::new(
            |path: Seq<char>| self.has_pat(path),
            |path: Seq<char>| self.nodes[self.node_at(path)->Some_0].weights->Some_0@,
        )
    }

    /// The number of `insert` calls that succeeded.
    pub closed spec fn spec_count(self) -> usize {
        self.count
    }

    spec fn wf_node(self, i: int) -> bool {
        let ch = self.nodes[i].children@;
        &&& forall|k: int|
            0 <= k < ch.len() ==> (#[trigger] ch[k]).1 < self.nodes.len()
                && self.nodes[ch[k].1 as int].path@ == self.nodes[i].path@ + seq![ch[k].0]
        &&& forall|k1: int, k2: int|
            0 <= k1 < k2 < ch.len() ==> (#[trigger] ch[k1]).0 != (#[trigger] ch[k2]).0
    }

    /// Well-formedness: the arena is rooted at node 0, child links stay in
    /// bounds, sibling letters are distinct, and each node's ghost path is
    /// the letter path that reaches it.
    pub closed spec fn wf(self) -> bool {
        &&& self.nodes.len() >= 1
        &&& self.nodes[0].path@ == Seq::<char>::empty()
        &&& forall|i: int| 0 <= i < self.nodes.len() ==> self.wf_node(i)
    }
}

proof fn lemma_find_child_push(ch: Seq<(char, usize)>, c0: char, j0: usize, c: char)
    ensures
        find_child(ch.push((c0, j0)), c) == if find_child(ch, c) is Some {
            find_child(ch, c)
        } else if c0 == c {
            Some(j0)
        } else {
            None::<usize>
        },
    decreases ch.len(),
{
    let s = ch.push((c0, j0));
    if ch.len() == 0 {
        assert(s.len() == 1 && s[0] == (c0, j0));
        assert(s.skip(1) == Seq::<(char, usize)>::empty());
        assert(find_child(ch, c) is None);
        if c0 == c {
            assert(find_child(s, c) == Some(j0));
        } else {
            assert(find_child(s.skip(1), c) is None);
            assert(find_child(s, c) is None);
        }
    } else {
        assert(s[0] == ch[0]);
        assert(s.skip(1) == ch.skip(1).push((c0, j0)));
        lemma_find_child_push(ch.skip(1), c0, j0, c);
        if ch[0].0 == c {
            assert(find_child(s, c) == Some(ch[0].1));
            assert(find_child(ch, c) == Some(ch[0].1));
        } else {
            assert(find_child(s, c) == find_child(ch.skip(1).push((c0, j0)), c));
            assert(find_child(ch, c) == find_child(ch.skip(1), c));
        }
    }
}

proof fn lemma_find_child_none(ch: Seq<(char, usize)>, c: char)
    requires
        find_child(ch, c) is None,
    ensures
        forall|k: int| 0 <= k < ch.len() ==> (#[trigger] ch[k]).0 != c,
    decreases ch.len(),
{
    if ch.len() > 0 {
        lemma_find_child_none(ch.skip(1), c);
        assert forall|k: int| 0 <= k < ch.len() implies (#[trigger] ch[k]).0 != c by {
            if k > 0 {
                assert(ch.skip(1)[k - 1] == ch[k]);
            }
        }
    }
}

proof fn lemma_find_child_some(ch: Seq<(char, usize)>, c: char)
    requires
        find_child(ch, c) is Some,
    ensures
        exists|k: int| 0 <= k < ch.len() && #[trigger] ch[k] == (c, find_child(ch, c)->Some_0),
    decreases ch.len(),
{
    if ch.len() > 0 {
        if ch[0].0 == c {
            assert(ch[0] == (c, find_child(ch, c)->Some_0));
        } else {
            lemma_find_child_some(ch.skip(1), c);
            let k = choose|k: int|
                0 <= k < ch.skip(1).len() && #[trigger] ch.skip(1)[k] == (
                c,
                find_child(ch.skip(1), c)->Some_0,
                );
            assert(ch[k + 1] == ch.skip(1)[k]);
        }
    }
}

impl Trie {
    /// Following a path lands on a node whose recorded path extends the
    /// start node's by exactly that path; in particular the landing node is
    /// in bounds.
    proof fn lemma_node_at_path(self, i: int, p: Seq<char>)
        requires
            self.wf(),
            0 <= i < self.nodes.len(),
            self.node_at_from(i, p) is Some,
        ensures
            0 <= self.node_at_from(i, p)->Some_0 < self.nodes.len(),
            self.nodes[self.node_at_from(i, p)->Some_0].path@ == self.nodes[i].path@ + p,
        decreases p.len(),
    {
        if p.len() == 0 {
            assert(self.nodes[i].path@ + p == self.nodes[i].path@);
        } else {
            let fc = find_child(self.nodes[i].children@, p[0]);
            let j = fc->Some_0;
            lemma_find_child_some(self.nodes[i].children@, p[0]);
            assert(self.wf_node(i));
            self.lemma_node_at_path(j as int, p.skip(1));
            assert((self.nodes[i].path@ + seq![p[0]]) + p.skip(1) == self.nodes[i].path@ + p);
        }
    }

    /// Two paths that reach the same node are the same path.
    proof fn lemma_node_at_unique(self, p: Seq<char>)
        requires
            self.wf(),
            self.node_at(p) is Some,
        ensures
            0 <= self.node_at(p)->Some_0 < self.nodes.len(),
            self.nodes[self.node_at(p)->Some_0].path@ == p,
    {
        self.lemma_node_at_path(0, p);
        assert(self.nodes[0].path@ + p == p);
    }

    /// Walks are unchanged when only weight fields differ.
    proof fn lemma_frame_children(t1: Trie, t2: Trie, i: int, p: Seq<char>)
        requires
            t1.nodes@.len() == t2.nodes@.len(),
            forall|k: int|
                0 <= k < t1.nodes@.len() ==> t1.nodes@[k].children@ == t2.nodes@[k].children@,
        ensures
            t1.node_at_from(i, p) == t2.node_at_from(i, p),
        decreases p.len(),
    {
        if 0 <= i < t1.nodes.len() && p.len() > 0 {
            match find_child(t1.nodes[i].children@, p[0]) {
                None => {},
                Some(j) => {
                    Self::lemma_frame_children(t1, t2, j as int, p.skip(1));
                },
            }
        }
    }

    /// Walks from an old node are unchanged when nodes are appended without
    /// being linked.
    proof fn lemma_frame_grow(t1: Trie, t2: Trie, i: int, p: Seq<char>)
        requires
            t1.wf(),
            t2.nodes@.len() >= t1.nodes@.len(),
            forall|k: int|
                0 <= k < t1.nodes@.len() ==> t1.nodes@[k].children@ == t2.nodes@[k].children@,
            0 <= i < t1.nodes@.len(),
        ensures
            t2.node_at_from(i, p) == t1.node_at_from(i, p),
        decreases p.len(),
    {
        if p.len() > 0 {
            match find_child(t1.nodes[i].children@, p[0]) {
                None => {},
                Some(j) => {
                    lemma_find_child_some(t1.nodes[i].children@, p[0]);
                    assert(t1.wf_node(i));
                    Self::lemma_frame_grow(t1, t2, j as int, p.skip(1));
                },
            }
        }
    }

    /// After linking one fresh childless node, every walk either ends where
    /// it did before, or newly ends at the fresh node.
    proof fn lemma_frame_link(t1: Trie, t2: Trie, cur: int, c: char, nw: int, i: int, p: Seq<char>)
        requires
            t1.wf(),
            t2.nodes@.len() == t1.nodes@.len(),
            0 <= nw < t1.nodes@.len(),
            0 <= cur < t1.nodes@.len(),
            cur != nw,
            find_child(t1.nodes@[cur].children@, c) is None,
            t1.nodes@[nw].children@ == Seq::<(char, usize)>::empty(),
            t2.nodes@[cur].children@ == t1.nodes@[cur].children@.push((c, nw as usize)),
            forall|k: int|
                0 <= k < t1.nodes@.len() && k != cur ==> t1.nodes@[k].children@
                    == t2.nodes@[k].children@,
            0 <= i < t1.nodes@.len(),
        ensures
            t1.node_at_from(i, p) is Some ==> t2.node_at_from(i, p) == t1.node_at_from(i, p),
            t1.node_at_from(i, p) is None ==> t2.node_at_from(i, p) is None
                || t2.node_at_from(i, p) == Some(nw),
        decreases p.len(),
    {
        if p.len() > 0 {
            let ch1 = t1.nodes[i].children@;
            let ch2 = t2.nodes[i].children@;
            if i == cur {
                lemma_find_child_push(ch1, c, nw as usize, p[0]);
            }
            match find_child(ch2, p[0]) {
                None => {
                    assert(find_child(ch1, p[0]) is None);
                },
                Some(j2) => {
                    if i == cur && find_child(ch1, p[0]) is None {
                        assert(j2 == nw);
                        assert(t2.nodes@[nw].children@ == Seq::<(char, usize)>::empty());
                        if p.skip(1).len() == 0 {
                            assert(t2.node_at_from(nw, p.skip(1)) == Some(nw));
                        } else {
                            assert(find_child(t2.nodes[nw].children@, p.skip(1)[0]) is None);
                        }
                    } else {
                        assert(find_child(ch1, p[0]) == Some(j2));
                        lemma_find_child_some(ch1, p[0]);
                        assert(t1.wf_node(i));
                        Self::lemma_frame_link(t1, t2, cur, c, nw, j2 as int, p.skip(1));
                    }
                },
            }
        }
    }

    /// Walking a concatenated path is walking its two parts in turn.
    proof fn lemma_node_at_decompose(self, i: int, a: Seq<char>, b: Seq<char>)
        requires
            self.wf(),
            0 <= i < self.nodes.len(),
        ensures
            self.node_at_from(i, a + b) == match self.node_at_from(i, a) {
                None => None::<int>,
                Some(j) => self.node_at_from(j, b),
            },
        decreases a.len(),
    {
        if a.len() == 0 {
            assert(a + b == b);
        } else {
            assert((a + b)[0] == a[0]);
            match find_child(self.nodes[i].children@, a[0]) {
                None => {},
                Some(j) => {
                    lemma_find_child_some(self.nodes[i].children@, a[0]);
                    assert(self.wf_node(i));
                    assert((a + b).skip(1) == a.skip(1) + b);
                    self.lemma_node_at_decompose(j as int, a.skip(1), b);
                },
            }
        }
    }

    /// An empty trie: a lone root, no stored patterns.
    pub fn new() -> (t: Trie)
        ensures
            t.wf(),
            t.pats() == Map::<Seq<char>, Seq<usize>>::empty(),
            t.spec_count() == 0,
    {
        let mut nodes: Vec<TrieNode> = Vec::new();
        nodes.push(
            TrieNode { children: Vec::new(), weights: None, path: Ghost(Seq::empty()) },
        );
        let t = Trie { nodes, count: 0 };
        proof {
            assert forall|p: Seq<char>| !t.has_pat(p) by {
                if p.len() > 0 {
                    assert(find_child(t.nodes[0].children@, p[0]) is None);
                }
            }
            assert(t.pats() =~= Map::<Seq<char>, Seq<usize>>::empty());
        }
        t
    }

    /// How many patterns have been inserted (accepted `insert` calls, with
    /// re-insertions of the same letter path counted again).
    pub fn count(&self) -> (r: usize)
        ensures
            r == self.spec_count(),
    {
        self.count
    }

    fn find_child_exec(&self, i: usize, c: char) -> (r: Option<usize>)
        requires
            i < self.nodes@.len(),
        ensures
            r == find_child(self.nodes@[i as int].children@, c),
    {
        let ch = &self.nodes[i].children;
        let mut k: usize = 0;
        proof {
            assert(ch@.skip(0) == ch@);
        }
        while k < ch.len()
            invariant
                k <= ch@.len(),
                ch@ == self.nodes@[i as int].children@,
                find_child(ch@, c) == find_child(ch@.skip(k as int), c),
            decreases ch@.len() - k,
        {
            let (cc, j) = ch[k];
            proof {
                assert(ch@.skip(k as int)[0] == ch@[k as int]);
            }
            if cc == c {
                return Some(j);
            }
            proof {
                assert(ch@.skip(k as int).skip(1) == ch@.skip(k as int + 1));
            }
            k += 1;
        }
        proof {
            assert(ch@.skip(ch@.len() as int) == Seq::<(char, usize)>::empty());
        }
        None
    }

    /// Stores a pattern: its letter path keyed to its weight vector, replacing
    /// any vector previously stored for the same letter path, and counts the
    /// call. An empty or digit-led pattern is rejected and nothing changes.
    pub fn insert(&mut self, pattern: &str) -> (r: Result<(), PatternError>)
        requires
            old(self).wf(),
            old(self).spec_count() < usize::MAX,
        ensures
            final(self).wf(),
            r is Ok <==> valid_pattern(pattern@),
            match r {
                Ok(()) => final(self).pats() == old(self).pats().insert(
                    letters_of(pattern@),
                    weights_of(pattern@),
                ) && final(self).spec_count() == old(self).spec_count() + 1,
                Err(e) => *final(self) == *old(self) && (e == PatternError::Empty <==> pattern@.len()
                    == 0),
            },
    {
        let chars = crate::text::chars_of(pattern);
        let parsed = parse_pattern(&chars);
        let (letters, ws) = match parsed {
            None => {
                if chars.len() == 0 {
                    return Err(PatternError::Empty);
                } else {
                    return Err(PatternError::LeadingDigit);
                }
            },
            Some(lw) => lw,
        };
        let ghost lts = letters_of(pattern@);
        let ghost wsv = weights_of(pattern@);
        let mut cur: usize = 0;
        let mut t: usize = 0;
        proof {
            assert(lts.take(0) == Seq::<char>::empty());
        }
        while t < letters.len()
            invariant
                self.wf(),
                self.pats() == old(self).pats(),
                self.count == old(self).count,
                letters@ == lts,
                ws@ == wsv,
                t <= lts.len(),
                (cur as int) < self.nodes@.len(),
                self.node_at(lts.take(t as int)) == Some(cur as int),
                self.nodes@[cur as int].path@ == lts.take(t as int),
            decreases lts.len() - t,
        {
            let c = letters[t];
            proof {
                assert(lts.take(t as int + 1) == lts.take(t as int) + seq![c]);
                assert(seq![c].skip(1) == Seq::<char>::empty());
            }
            let fc = self.find_child_exec(cur, c);
            match fc {
                Some(j) => {
                    proof {
                        lemma_find_child_some(self.nodes@[cur as int].children@, c);
                        assert(self.wf_node(cur as int));
                        self.lemma_node_at_decompose(0, lts.take(t as int), seq![c]);
                        assert(self.node_at_from(j as int, seq![c].skip(1)) == Some(j as int));
                    }
                    cur = j;
                },
                None => {
                    let nw = self.nodes.len();
                    let ghost t1 = *self;
                    let ghost pth = self.nodes@[cur as int].path@ + seq![c];
                    self.nodes.push(
                        TrieNode { children: Vec::new(), weights: None, path: Ghost(pth) },
                    );
                    let ghost t2 = *self;
                    proof {
                        assert forall|i: int| 0 <= i < t2.nodes@.len() implies t2.wf_node(i) by {
                            if i < t1.nodes@.len() {
                                assert(t1.wf_node(i));
                            }
                        }
                        assert(t2.wf());
                        assert forall|p: Seq<char>|
                            t2.has_pat(p) == t1.has_pat(p) && (t1.has_pat(p) ==> t2.pats()[p]
                                == t1.pats()[p]) by {
                            Self::lemma_frame_grow(t1, t2, 0, p);
                            if t1.node_at(p) is Some {
                                t1.lemma_node_at_path(0, p);
                            }
                        }
                        assert(t2.pats() =~= t1.pats());
                        Self::lemma_frame_grow(t1, t2, 0, lts.take(t as int));
                        assert(t2.node_at(lts.take(t as int)) == Some(cur as int));
                    }
                    let noderef = &mut self.nodes[cur];
                    noderef.children.push((c, nw));
                    let ghost t3 = *self;
                    proof {
                        lemma_find_child_none(t2.nodes@[cur as int].children@, c);
                        assert forall|i: int| 0 <= i < t3.nodes@.len() implies t3.wf_node(i) by {
                            if i == cur as int {
                                let ch2 = t2.nodes@[cur as int].children@;
                                let ch3 = t3.nodes@[cur as int].children@;
                                assert(ch3 == ch2.push((c, nw)));
                                assert(forall|k: int|
                                    0 <= k < ch2.len() ==> ch3[k] == ch2[k]);
                                assert(ch3[ch2.len() as int] == (c, nw));
                                assert(t2.wf_node(i));
                            } else {
                                assert(t2.wf_node(i));
                            }
                        }
                        assert(t3.wf());
                        assert(t3.nodes@[nw as int].weights is None);
                        assert forall|p: Seq<char>|
                            t3.has_pat(p) == t2.has_pat(p) && (t3.has_pat(p) ==> t3.pats()[p]
                                == t2.pats()[p]) by {
                            Self::lemma_frame_link(t2, t3, cur as int, c, nw as int, 0, p);
                            if t2.node_at(p) is Some {
                                t2.lemma_node_at_path(0, p);
                            }
                        }
                        assert(t3.pats() =~= t2.pats());
                        // the walk now reaches the fresh node
                        Self::lemma_frame_link(
                            t2,
                            t3,
                            cur as int,
                            c,
                            nw as int,
                            0,
                            lts.take(t as int),
                        );
                        assert(t3.node_at(lts.take(t as int)) == Some(cur as int));
                        t3.lemma_node_at_decompose(0, lts.take(t as int), seq![c]);
                        lemma_find_child_push(t2.nodes@[cur as int].children@, c, nw, c);
                        assert(find_child(t3.nodes@[cur as int].children@, c) == Some(nw));
                        assert(t3.node_at_from(nw as int, seq![c].skip(1)) == Some(nw as int));
                        assert(t3.node_at(lts.take(t as int + 1)) == Some(nw as int));
                    }
                    cur = nw;
                },
            }
            t += 1;
        }
        proof {
            assert(lts.take(lts.len() as int) == lts);
        }
        let ghost t4 = *self;
        let noderef = &mut self.nodes[cur];
        noderef.weights = Some(ws);
        self.count = self.count + 1;
        proof {
            let t5 = *self;
            assert forall|i: int| 0 <= i < t5.nodes@.len() implies t5.wf_node(i) by {
                assert(t4.wf_node(i));
            }
            assert(t5.wf());
            assert forall|p: Seq<char>| t5.node_at(p) == t4.node_at(p) by {
                Self::lemma_frame_children(t4, t5, 0, p);
            }
            assert(t5.node_at(lts) == Some(cur as int));
            assert(t5.has_pat(lts));
            assert(t5.pats()[lts] == wsv);
            assert forall|p: Seq<char>| p != lts implies t5.has_pat(p) == t4.has_pat(p) && (
            t5.has_pat(p) ==> t5.pats()[p] == t4.pats()[p]) by {
                if t5.node_at(p) is Some {
                    t5.lemma_node_at_unique(p);
                    assert(t5.nodes@[cur as int].path@ == lts);
                    assert(t5.node_at(p)->Some_0 != cur as int);
                }
            }
            assert(t5.pats() =~= t4.pats().insert(lts, wsv));
        }
        Ok(())
    }

    /// The weight array for a character sequence: position by position, the
    /// maximum weight contributed by any stored pattern that matches as a
    /// substring anywhere, combined by elementwise maximum. Weight entries
    /// that would fall beyond the end of the sequence are ignored.
    pub fn fetch(&self, chars: &Vec<char>) -> (r: Vec<usize>)
        requires
            self.wf(),
        ensures
            r@.len() == chars@.len(),
            forall|j: int|
                0 <= j < chars@.len() ==> max_weight(self.pats(), chars@, j, #[trigger] r@[j]),
            r@ == fetch_seq(self.pats(), chars@),
    {
        let n = chars.len();
        let ghost pm = self.pats();
        let ghost cs = chars@;
        let mut r: Vec<usize> = Vec::new();
        let mut z: usize = 0;
        while z < n
            invariant
                z <= n,
                r@.len() == z,
                forall|j: int| 0 <= j < z ==> r@[j] == 0,
            decreases n - z,
        {
            r.push(0);
            z += 1;
        }
        let mut i: usize = 0;
        while i < n
            invariant
                self.wf(),
                pm == self.pats(),
                cs == chars@,
                n == cs.len(),
                i <= n,
                r@.len() == n,
                forall|j: int| 0 <= j < n ==> max_upto(pm, cs, j, #[trigger] r@[j], i as int, -1),
            decreases n - i,
        {
            let mut cur: usize = 0;
            let mut d: usize = 0;
            proof {
                assert(cs.subrange(i as int, i as int) == Seq::<char>::empty());
            }
            loop
                invariant_except_break
                    self.wf(),
                    pm == self.pats(),
                    cs == chars@,
                    n == cs.len(),
                    r@.len() == n,
                    i < n,
                    i + d <= n,
                    (cur as int) < self.nodes@.len(),
                    self.node_at(cs.subrange(i as int, i as int + d as int)) == Some(cur as int),
                    forall|j: int|
                        0 <= j < n ==> max_upto(pm, cs, j, #[trigger] r@[j], i as int, d as int - 1),
                ensures
                    r@.len() == n,
                    forall|j: int|
                        0 <= j < n ==> max_upto(pm, cs, j, #[trigger] r@[j], i as int + 1, -1),
                decreases n - i - d,
            {
                let ghost pat = cs.subrange(i as int, i as int + d as int);
                if let Some(w) = &self.nodes[cur].weights {
                    let ghost wv = w@;
                    proof {
                        assert(self.has_pat(pat));
                        assert(pm.contains_key(pat) && pm[pat] == wv);
                    }
                    let wlen = w.len();
                    let mut k: usize = 0;
                    while k < wlen
                        invariant
                            pm.contains_key(pat) && pm[pat] == wv,
                            pat == cs.subrange(i as int, i as int + d as int),
                            n == cs.len(),
                            r@.len() == n,
                            i < n,
                            i + d <= n,
                            k <= wlen,
                            wlen == wv.len(),
                            w@ == wv,
                            forall|j: int|
                                0 <= j < n && !(i as int <= j < i as int + k as int) ==> max_upto(
                                    pm,
                                    cs,
                                    j,
                                    #[trigger] r@[j],
                                    i as int,
                                    d as int - 1,
                                ),
                            forall|j: int|
                                i as int <= j < i as int + k as int && j < n ==> max_upto(
                                    pm,
                                    cs,
                                    j,
                                    #[trigger] r@[j],
                                    i as int,
                                    d as int,
                                ),
                        decreases wlen - k,
                    {
                        if k < n - i {
                            let a = r[i + k];
                            let b = w[k];
                            let m = if a > b {
                                a
                            } else {
                                b
                            };
                            r[i + k] = m;
                            proof {
                                let j = i as int + k as int;
                                assert(contrib_at(pm, cs, i as int, d as int, j));
                                assert(contrib_val(pm, cs, i as int, d as int, j) == b);
                                assert forall|i2: int, len2: int|
                                    in_scan_range(i2, len2, i as int, d as int)
                                        && #[trigger] contrib_at(pm, cs, i2, len2, j)
                                        implies contrib_val(pm, cs, i2, len2, j) <= m by {
                                    if !in_scan_range(i2, len2, i as int, d as int - 1) {
                                        assert(i2 == i as int && len2 == d as int);
                                    }
                                }
                                if m != 0 {
                                    if m == a {
                                        let (i0, l0) = choose|i0: int, l0: int|
                                            in_scan_range(i0, l0, i as int, d as int - 1)
                                                && #[trigger] contrib_at(pm, cs, i0, l0, j)
                                                && contrib_val(pm, cs, i0, l0, j) == a;
                                        assert(in_scan_range(i0, l0, i as int, d as int));
                                    } else {
                                        assert(contrib_val(pm, cs, i as int, d as int, j) == m);
                                        assert(in_scan_range(i as int, d as int, i as int, d as int));
                                    }
                                }
                                assert(max_upto(pm, cs, j, m, i as int, d as int));
                            }
                        }
                        k += 1;
                    }
                    proof {
                        assert forall|j: int|
                            0 <= j < n implies max_upto(pm, cs, j, #[trigger] r@[j], i as int, d as int) by {
                            if !(i as int <= j < i as int + wlen as int) {
                                assert(!contrib_at(pm, cs, i as int, d as int, j));
                                lemma_step_depth(pm, cs, j, r@[j], i as int, d as int);
                            }
                        }
                    }
                } else {
                    proof {
                        assert(!pm.contains_key(pat));
                        assert forall|j: int|
                            0 <= j < n implies max_upto(pm, cs, j, #[trigger] r@[j], i as int, d as int) by {
                            assert(!contrib_at(pm, cs, i as int, d as int, j));
                            lemma_step_depth(pm, cs, j, r@[j], i as int, d as int);
                        }
                    }
                }
                if i + d >= n {
                    proof {
                        assert forall|j: int|
                            0 <= j < n implies max_upto(pm, cs, j, #[trigger] r@[j], i as int
                            + 1, -1) by {
                            assert forall|len: int| len > d as int implies !contrib_at(
                                pm,
                                cs,
                                i as int,
                                len,
                                j,
                            ) by {}
                            lemma_advance_start(pm, cs, j, r@[j], i as int, d as int);
                        }
                    }
                    break;
                }
                let c = chars[i + d];
                let fc = self.find_child_exec(cur, c);
                match fc {
                    Some(jn) => {
                        proof {
                            lemma_find_child_some(self.nodes@[cur as int].children@, c);
                            assert(self.wf_node(cur as int));
                            self.lemma_node_at_decompose(0, pat, seq![c]);
                            assert(cs.subrange(i as int, i as int + d as int + 1) == pat + seq![c]);
                            assert(seq![c].skip(1) == Seq::<char>::empty());
                            assert(self.node_at_from(jn as int, seq![c].skip(1)) == Some(jn as int));
                        }
                        cur = jn;
                        d += 1;
                    },
                    None => {
                        proof {
                            self.lemma_node_at_decompose(0, pat, seq![c]);
                            assert(cs.subrange(i as int, i as int + d as int + 1) == pat + seq![c]);
                            assert(self.node_at(pat + seq![c]) is None);
                            assert forall|j: int, len: int|
                                len > d as int && #[trigger] contrib_at(pm, cs, i as int, len, j)
                                    implies false by {
                                let q = cs.subrange(i as int, i as int + len);
                                assert(q == (pat + seq![c]) + cs.subrange(
                                    i as int + d as int + 1,
                                    i as int + len,
                                ));
                                self.lemma_node_at_decompose(
                                    0,
                                    pat + seq![c],
                                    cs.subrange(i as int + d as int + 1, i as int + len),
                                );
                                assert(self.node_at(q) is None);
                                assert(!self.has_pat(q));
                            }
                            assert forall|j: int|
                                0 <= j < n implies max_upto(pm, cs, j, #[trigger] r@[j], i as int
                                + 1, -1) by {
                                lemma_advance_start(pm, cs, j, r@[j], i as int, d as int);
                            }
                        }
                        break;
                    },
                }
            }
            i += 1;
        }
        proof {
            assert forall|j: int|
                0 <= j < cs.len() implies max_weight(pm, cs, j, #[trigger] r@[j]) by {
                lemma_scan_done(pm, cs, j, r@[j]);
            }
            assert forall|j: int| 0 <= j < cs.len() implies fetch_seq(pm, cs)[j] == r@[j] by {
                lemma_fetch_val(pm, cs, j, r@[j]);
            }
            assert(r@ =~= fetch_seq(pm, cs));
        }
        r
    }
}

} // verus!
