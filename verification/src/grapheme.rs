//! Graphemes and grapheme clusters.
//!
//! A grapheme is one user-perceived character: a non-empty run of Unicode
//! scalar values, together with repetition bounds discovered upstream.
//! A cluster is an ordered sequence of graphemes forming a literal
//! fragment. The synthesis core treats graphemes as atomic units; it only
//! inspects the upper repetition bound and the first scalar value when
//! deciding whether two alternatives can merge into a character class.

use vstd::prelude::*;

verus! {

/// Mathematical model of a grapheme: its scalar values and its
/// repetition bounds.
pub struct GraphemeModel {
    pub chars: Seq<char>,
    pub min: nat,
    pub max: nat,
}

/// A well-formed grapheme has at least one scalar value and repeats at
/// least once: `1 <= min <= max`.
pub open spec fn grapheme_ok(g: GraphemeModel) -> bool {
    &&& g.chars.len() >= 1
    &&& 1 <= g.min <= g.max
}

/// Every grapheme of the sequence is well-formed.
pub open spec fn cluster_ok(s: Seq<GraphemeModel>) -> bool {
    forall|i: int| 0 <= i < s.len() ==> grapheme_ok(#[trigger] s[i])
}

/// How many characters one scalar counts as: an escaped non-ASCII scalar
/// renders as a multi-character sequence, so it weighs more than one.
pub open spec fn char_weight(c: char, escape_non_ascii: bool) -> nat {
    if escape_non_ascii && c as u32 > 127 {
        2
    } else {
        1
    }
}

/// Character count of a scalar sequence under the given escaping mode.
pub open spec fn chars_count(s: Seq<char>, escape_non_ascii: bool) -> nat
    decreases s.len(),
{
    if s.len() == 0 {
        0
    } else {
        chars_count(s.drop_last(), escape_non_ascii) + char_weight(s.last(), escape_non_ascii)
    }
}

/// Character count of a grapheme sequence under the given escaping mode.
pub open spec fn cluster_count(s: Seq<GraphemeModel>, escape_non_ascii: bool) -> nat
    decreases s.len(),
{
    if s.len() == 0 {
        0
    } else {
        cluster_count(s.drop_last(), escape_non_ascii) + chars_count(
            s.last().chars,
            escape_non_ascii,
        )
    }
}

/// Each scalar weighs at least one character.
pub proof fn lemma_chars_count_at_least_len(s: Seq<char>, escape_non_ascii: bool)
    ensures
        chars_count(s, escape_non_ascii) >= s.len(),
    decreases s.len(),
{
    if s.len() > 0 {
        lemma_chars_count_at_least_len(s.drop_last(), escape_non_ascii);
    }
}

/// Each well-formed grapheme weighs at least one character, so a cluster
/// weighs at least as many characters as it has graphemes.
pub proof fn lemma_cluster_count_at_least_len(s: Seq<GraphemeModel>, escape_non_ascii: bool)
    requires
        cluster_ok(s),
    ensures
        cluster_count(s, escape_non_ascii) >= s.len(),
    decreases s.len(),
{
    if s.len() > 0 {
        assert(cluster_ok(s.drop_last()));
        lemma_cluster_count_at_least_len(s.drop_last(), escape_non_ascii);
        lemma_chars_count_at_least_len(s.last().chars, escape_non_ascii);
    }
}

/// A well-formed cluster that counts as exactly one character holds
/// exactly one grapheme, which holds exactly one scalar.
pub proof fn lemma_cluster_count_one(s: Seq<GraphemeModel>, escape_non_ascii: bool)
    requires
        cluster_ok(s),
        cluster_count(s, escape_non_ascii) == 1,
    ensures
        s.len() == 1,
        s[0].chars.len() == 1,
{
    lemma_cluster_count_at_least_len(s, escape_non_ascii);
    assert(s.len() == 1);
    assert(s.drop_last().len() == 0);
    assert(chars_count(s[0].chars, escape_non_ascii) == 1);
    lemma_chars_count_at_least_len(s[0].chars, escape_non_ascii);
    assert(s.last() == s[0]);
    if s[0].chars.len() > 1 {
        lemma_chars_count_at_least_len(s[0].chars.drop_last(), escape_non_ascii);
    }
}

/// `n` clamped to what a `usize` can hold.
pub open spec fn clamp_usize(n: nat) -> nat {
    if n > usize::MAX as nat {
        usize::MAX as nat
    } else {
        n
    }
}

/// One user-perceived character: a non-empty run of scalar values plus
/// repetition bounds handed down by the upstream DFA construction.
#[derive(Debug)]
pub struct Grapheme {
    pub chars: Vec<char>,
    pub min: u32,
    pub max: u32,
}

impl View for Grapheme {
    type V = GraphemeModel;

    open spec fn view(&self) -> GraphemeModel {
        GraphemeModel { chars: self.chars@, min: self.min as nat, max: self.max as nat }
    }
}

impl Grapheme {
    /// A grapheme consisting of the single scalar `c`, occurring exactly
    /// once.
    pub fn from_char(c: char) -> (r: Grapheme)
        ensures
            r@ == (GraphemeModel { chars: seq![c], min: 1nat, max: 1nat }),
    {
        let mut chars: Vec<char> = Vec::new();
        chars.push(c);
        let r = Grapheme { chars, min: 1, max: 1 };
        proof {
            assert(r@.chars =~= seq![c]);
        }
        r
    }

    /// A grapheme with the given scalars and repetition bounds.
    pub fn new(chars: Vec<char>, min: u32, max: u32) -> (r: Grapheme)
        requires
            chars@.len() >= 1,
            1 <= min <= max,
        ensures
            r@ == (GraphemeModel { chars: chars@, min: min as nat, max: max as nat }),
            grapheme_ok(r@),
    {
        Grapheme { chars, min, max }
    }

    /// The upper repetition bound.
    pub fn maximum(&self) -> (r: u32)
        ensures
            r as nat == self@.max,
    {
        self.max
    }

    /// The scalar values.
    pub fn value(&self) -> (r: &Vec<char>)
        ensures
            r@ == self@.chars,
    {
        &self.chars
    }
}

impl Clone for Grapheme {
    fn clone(&self) -> (r: Self)
        ensures
            r@ == self@,
    {
        let mut chars: Vec<char> = Vec::new();
        let mut i: usize = 0;
        while i < self.chars.len()
            invariant
                i <= self.chars.len(),
                chars@ == self.chars@.subrange(0, i as int),
            decreases self.chars.len() - i,
        {
            chars.push(self.chars[i]);
            proof {
                assert(chars@ =~= self.chars@.subrange(0, i + 1));
            }
            i += 1;
        }
        proof {
            assert(chars@ =~= self.chars@);
        }
        Grapheme { chars, min: self.min, max: self.max }
    }
}

impl PartialEq for Grapheme {
    fn eq(&self, other: &Grapheme) -> (r: bool)
    {
        if self.min != other.min || self.max != other.max || self.chars.len() != other.chars.len()
        {
            return false;
        }
        let mut i: usize = 0;
        while i < self.chars.len()
            invariant
                i <= self.chars.len(),
                self.chars.len() == other.chars.len(),
                self.min == other.min,
                self.max == other.max,
                forall|k: int| 0 <= k < i ==> self.chars@[k] == other.chars@[k],
            decreases self.chars.len() - i,
        {
            if self.chars[i] != other.chars[i] {
                return false;
            }
            i += 1;
        }
        proof {
            assert(self.chars@ =~= other.chars@);
        }
        true
    }
}

impl vstd::std_specs::cmp::PartialEqSpecImpl for Grapheme {
    open spec fn obeys_eq_spec() -> bool {
        true
    }

    open spec fn eq_spec(&self, other: &Grapheme) -> bool {
        self@ == other@
    }
}

/// An ordered sequence of graphemes forming a literal text fragment.
#[derive(Debug)]
pub struct GraphemeCluster {
    pub graphemes: Vec<Grapheme>,
}

impl View for GraphemeCluster {
    type V = Seq<GraphemeModel>;

    open spec fn view(&self) -> Seq<GraphemeModel> {
        Seq::new(self.graphemes@.len(), |i: int| self.graphemes@[i]@)
    }
}

impl GraphemeCluster {
    /// The cluster with no graphemes: the text of the epsilon literal.
    pub fn empty() -> (r: GraphemeCluster)
        ensures
            r@ =~= Seq::<GraphemeModel>::empty(),
    {
        GraphemeCluster { graphemes: Vec::new() }
    }

    /// A cluster holding the one given grapheme.
    pub fn new(grapheme: Grapheme) -> (r: GraphemeCluster)
        ensures
            r@ =~= seq![grapheme@],
    {
        let mut graphemes: Vec<Grapheme> = Vec::new();
        graphemes.push(grapheme);
        GraphemeCluster { graphemes }
    }

    /// A cluster holding the given graphemes in order.
    pub fn from_graphemes(graphemes: Vec<Grapheme>) -> (r: GraphemeCluster)
        ensures
            r@ =~= Seq::new(graphemes@.len(), |i: int| graphemes@[i]@),
    {
        GraphemeCluster { graphemes }
    }

    /// The concatenation of two clusters, left before right.
    pub fn merge(a: &GraphemeCluster, b: &GraphemeCluster) -> (r: GraphemeCluster)
        ensures
            r@ =~= a@ + b@,
    {
        let mut graphemes: Vec<Grapheme> = Vec::new();
        let mut i: usize = 0;
        while i < a.graphemes.len()
            invariant
                i <= a.graphemes.len(),
                graphemes@.len() == i,
                forall|k: int| 0 <= k < i ==> #[trigger] graphemes@[k]@ == a@[k],
            decreases a.graphemes.len() - i,
        {
            graphemes.push(a.graphemes[i].clone());
            i += 1;
        }
        let ghost na = a@.len();
        let mut j: usize = 0;
        while j < b.graphemes.len()
            invariant
                j <= b.graphemes.len(),
                na == a@.len(),
                graphemes@.len() == na + j,
                forall|k: int| 0 <= k < na ==> #[trigger] graphemes@[k]@ == a@[k],
                forall|k: int| 0 <= k < j ==> #[trigger] graphemes@[na + k]@ == b@[k],
            decreases b.graphemes.len() - j,
        {
            graphemes.push(b.graphemes[j].clone());
            j += 1;
        }
        let r = GraphemeCluster { graphemes };
        proof {
            assert forall|k: int| 0 <= k < r@.len() implies r@[k] == (a@ + b@)[k] by {
                assert(r@[k] == r.graphemes@[k]@);
                if k >= na {
                    assert(r.graphemes@[na + (k - na)]@ == b@[k - na]);
                }
            }
            assert(r@ =~= a@ + b@);
        }
        r
    }

    /// The underlying grapheme sequence.
    pub fn graphemes(&self) -> (r: &Vec<Grapheme>)
        ensures
            r == &self.graphemes,
            r@.len() == self@.len(),
            forall|i: int| 0 <= i < r@.len() ==> #[trigger] r@[i]@ == self@[i],
    {
        &self.graphemes
    }

    /// How many graphemes the cluster holds.
    pub fn size(&self) -> (r: usize)
        ensures
            r == self@.len(),
    {
        self.graphemes.len()
    }

    /// Whether the cluster holds no graphemes.
    pub fn is_empty(&self) -> (r: bool)
        ensures
            r == (self@.len() == 0),
    {
        self.graphemes.len() == 0
    }

    /// The number of characters the cluster counts as under the given
    /// escaping mode, clamped to `usize`.
    pub fn char_count(&self, escape_non_ascii: bool) -> (r: usize)
        ensures
            r as nat == clamp_usize(cluster_count(self@, escape_non_ascii)),
    {
        let mut total: usize = 0;
        let mut i: usize = 0;
        while i < self.graphemes.len()
            invariant
                i <= self.graphemes.len(),
                total as nat == clamp_usize(
                    cluster_count(self@.subrange(0, i as int), escape_non_ascii),
                ),
            decreases self.graphemes.len() - i,
        {
            let ghost before_grapheme = cluster_count(
                self@.subrange(0, i as int),
                escape_non_ascii,
            );
            let chars = &self.graphemes[i].chars;
            let mut j: usize = 0;
            while j < chars.len()
                invariant
                    j <= chars.len(),
                    chars == &self.graphemes@[i as int].chars,
                    i < self.graphemes.len(),
                    total as nat == clamp_usize(
                        before_grapheme + chars_count(
                            chars@.subrange(0, j as int),
                            escape_non_ascii,
                        ),
                    ),
                decreases chars.len() - j,
            {
                let c = chars[j];
                let w: usize = if escape_non_ascii && (c as u32) > 127 {
                    2
                } else {
                    1
                };
                proof {
                    assert(chars@.subrange(0, j + 1).drop_last() =~= chars@.subrange(0, j as int));
                    assert(chars@.subrange(0, j + 1).last() == chars@[j as int]);
                }
                total = if total > usize::MAX - w {
                    usize::MAX
                } else {
                    total + w
                };
                j += 1;
            }
            proof {
                assert(chars@.subrange(0, chars@.len() as int) =~= chars@);
                assert(self@.subrange(0, i + 1).drop_last() =~= self@.subrange(0, i as int));
                assert(self@.subrange(0, i + 1).last() == self@[i as int]);
                assert(self@[i as int].chars == chars@);
            }
            i += 1;
        }
        proof {
            assert(self@.subrange(0, self@.len() as int) =~= self@);
        }
        total
    }

    /// Removes the first `n` graphemes.
    pub fn remove_leading(&mut self, n: usize)
        requires
            n <= old(self)@.len(),
        ensures
            final(self)@ =~= old(self)@.subrange(n as int, old(self)@.len() as int),
    {
        let ghost orig = self@;
        let mut rest: Vec<Grapheme> = Vec::new();
        let mut i: usize = n;
        while i < self.graphemes.len()
            invariant
                n <= i <= self.graphemes.len(),
                self@ == orig,
                orig.len() == self.graphemes@.len(),
                rest@.len() == i - n,
                forall|k: int| 0 <= k < i - n ==> #[trigger] rest@[k]@ == orig[n + k],
            decreases self.graphemes.len() - i,
        {
            rest.push(self.graphemes[i].clone());
            proof {
                assert(self.graphemes@[i as int]@ == orig[i as int]);
            }
            i += 1;
        }
        self.graphemes = rest;
        proof {
            assert forall|k: int| 0 <= k < self@.len() implies self@[k] == orig.subrange(
                n as int,
                orig.len() as int,
            )[k] by {
                assert(self@[k] == self.graphemes@[k]@);
            }
            assert(self@ =~= orig.subrange(n as int, orig.len() as int));
        }
    }

    /// Removes the last `n` graphemes.
    pub fn remove_trailing(&mut self, n: usize)
        requires
            n <= old(self)@.len(),
        ensures
            final(self)@ =~= old(self)@.subrange(0, old(self)@.len() - n),
    {
        let keep = self.graphemes.len() - n;
        self.graphemes.truncate(keep);
        proof {
            assert(final(self)@ =~= old(self)@.subrange(0, old(self)@.len() - n));
        }
    }
}

impl Clone for GraphemeCluster {
    fn clone(&self) -> (r: Self)
        ensures
            r@ == self@,
    {
        let mut graphemes: Vec<Grapheme> = Vec::new();
        let mut i: usize = 0;
        while i < self.graphemes.len()
            invariant
                i <= self.graphemes.len(),
                graphemes@.len() == i,
                forall|k: int| 0 <= k < i ==> #[trigger] graphemes@[k]@ == self@[k],
            decreases self.graphemes.len() - i,
        {
            graphemes.push(self.graphemes[i].clone());
            i += 1;
        }
        let r = GraphemeCluster { graphemes };
        proof {
            assert forall|k: int| 0 <= k < r@.len() implies r@[k] == self@[k] by {
                assert(r@[k] == r.graphemes@[k]@);
            }
            assert(r@ =~= self@);
        }
        r
    }
}

impl PartialEq for GraphemeCluster {
    fn eq(&self, other: &GraphemeCluster) -> (r: bool)
    {
        proof {
            assert(self@.len() == self.graphemes@.len());
            assert(other@.len() == other.graphemes@.len());
        }
        if self.graphemes.len() != other.graphemes.len() {
            return false;
        }
        let mut i: usize = 0;
        while i < self.graphemes.len()
            invariant
                i <= self.graphemes.len(),
                self.graphemes.len() == other.graphemes.len(),
                forall|k: int| 0 <= k < i ==> self@[k] == other@[k],
            decreases self.graphemes.len() - i,
        {
            let same = self.graphemes[i] == other.graphemes[i];
            proof {
                assert(self@[i as int] == self.graphemes@[i as int]@);
                assert(other@[i as int] == other.graphemes@[i as int]@);
            }
            if !same {
                return false;
            }
            i += 1;
        }
        proof {
            assert(self@ =~= other@);
        }
        true
    }
}

impl vstd::std_specs::cmp::PartialEqSpecImpl for GraphemeCluster {
    open spec fn obeys_eq_spec() -> bool {
        true
    }

    open spec fn eq_spec(&self, other: &GraphemeCluster) -> bool {
        self@ == other@
    }
}

} // verus!
