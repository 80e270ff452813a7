//! The state-elimination driver: builds transition and accept arrays
//! from a DFA given as plain data, then eliminates states in reverse
//! depth-first order, folding every transition into one expression
//! through the normalising combinators.

use vstd::prelude::*;

use crate::ast::{concat_m, is_epsilon, opt_model, star_m, union_m, wf, ExprModel, Expression};
use crate::config::RegExpConfig;
use crate::grapheme::{grapheme_ok, Grapheme, GraphemeCluster};
use crate::laws::{
    alternations_flat, alternations_ordered, classes_nontrivial, lemma_concat_wf,
    lemma_star_wf, lemma_union_wf, lemma_wf_shape, spines_merged,
};

verus! {

/// One transition: the index of the target state and the grapheme that
/// labels the edge.
pub struct Edge {
    pub target: usize,
    pub label: Grapheme,
}

/// A deterministic finite automaton handed over as plain data: one
/// acceptance flag and one outgoing edge list per state, states listed
/// in depth-first order with state 0 the start state.
pub struct Dfa {
    pub accepting: Vec<bool>,
    pub edges: Vec<Vec<Edge>>,
}

impl Dfa {
    /// A well-formed automaton has one edge list per state, every edge
    /// target inside the state list, and well-formed edge labels.
    pub open spec fn well_formed(&self) -> bool {
        &&& self.edges@.len() == self.accepting@.len()
        &&& forall|i: int, j: int|
            0 <= i < self.edges@.len() && 0 <= j < self.edges@[i]@.len() ==> (
            #[trigger] self.edges@[i]@[j]).target < self.accepting@.len() && grapheme_ok(
                self.edges@[i]@[j].label@,
            )
    }

    /// How many states the automaton has.
    pub fn state_count(&self) -> (r: usize)
        ensures
            r == self.accepting@.len(),
    {
        self.accepting.len()
    }

    /// Whether the given state is accepting.
    pub fn is_final_state(&self, state: usize) -> (r: bool)
        requires
            state < self.accepting@.len(),
        ensures
            r == self.accepting@[state as int],
    {
        self.accepting[state]
    }
}

/// A matrix or vector entry holds a well-formed tree or nothing.
pub open spec fn entry_ok(o: Option<Expression>) -> bool {
    opt_model(o) matches Some(m) ==> wf(m)
}

/// The model of one matrix row.
pub open spec fn row_model(row: Vec<Option<Expression>>) -> Seq<Option<ExprModel>> {
    Seq::new(row@.len(), |j: int| opt_model(row@[j]))
}

/// The model of the transition matrix.
pub open spec fn matrix_model(m: Seq<Vec<Option<Expression>>>) -> Seq<Seq<Option<ExprModel>>> {
    Seq::new(m.len(), |i: int| row_model(m[i]))
}

/// The model of the suffix vector.
pub open spec fn vector_model(s: Seq<Option<Expression>>) -> Seq<Option<ExprModel>> {
    Seq::new(s.len(), |i: int| opt_model(s[i]))
}

/// The driver's working state: the transition matrix `A` and the
/// suffix vector `B` of the elimination.
pub struct Slots {
    pub a: Seq<Seq<Option<ExprModel>>>,
    pub b: Seq<Option<ExprModel>>,
}

/// The matrix before any edge is entered: no transition known.
pub open spec fn blank_matrix(n: int) -> Seq<Seq<Option<ExprModel>>> {
    Seq::new(n as nat, |i: int| Seq::new(n as nat, |j: int| None::<ExprModel>))
}

/// The initial suffix vector: epsilon at every accepting state.
pub open spec fn initial_suffixes(accepting: Seq<bool>) -> Seq<Option<ExprModel>> {
    Seq::new(
        accepting.len(),
        |i: int|
            if accepting[i] {
                Some(ExprModel::Literal(Seq::empty()))
            } else {
                None
            },
    )
}

/// The matrix after the edges of state `i` from position `k` on have
/// been folded in: each edge unites its literal into `A[i][target]`.
pub open spec fn seeded_row(
    a: Seq<Seq<Option<ExprModel>>>,
    i: int,
    edges: Seq<Edge>,
    k: int,
    escape_non_ascii: bool,
) -> Seq<Seq<Option<ExprModel>>>
    decreases edges.len() - k,
{
    if k < 0 || k >= edges.len() {
        a
    } else {
        let edge = edges[k];
        let literal = ExprModel::Literal(seq![edge.label@]);
        let target = edge.target as int;
        let updated = if a[i][target] is Some {
            union_m(a[i][target], Some(literal), escape_non_ascii)
        } else {
            Some(literal)
        };
        seeded_row(
            a.update(i, a[i].update(target, updated)),
            i,
            edges,
            k + 1,
            escape_non_ascii,
        )
    }
}

/// The matrix after the edges of states `i..` have been folded in.
pub open spec fn seeded(
    a: Seq<Seq<Option<ExprModel>>>,
    edge_rows: Seq<Vec<Edge>>,
    i: int,
    escape_non_ascii: bool,
) -> Seq<Seq<Option<ExprModel>>>
    decreases edge_rows.len() - i,
{
    if i < 0 || i >= edge_rows.len() {
        a
    } else {
        seeded(
            seeded_row(a, i, edge_rows[i]@, 0, escape_non_ascii),
            edge_rows,
            i + 1,
            escape_non_ascii,
        )
    }
}

/// Row `n` after each entry left of the diagonal has been prefixed
/// with the starred self loop.
pub open spec fn star_row(
    a: Seq<Seq<Option<ExprModel>>>,
    n: int,
    star: Option<ExprModel>,
    j: int,
) -> Seq<Seq<Option<ExprModel>>>
    decreases n - j,
{
    if j < 0 || j >= n {
        a
    } else {
        star_row(a.update(n, a[n].update(j, concat_m(star, a[n][j]))), n, star, j + 1)
    }
}

/// Self-loop absorption at state `n`: if `A[n][n]` is present, its star
/// is prefixed to `B[n]` and to every entry `A[n][j]` with `j < n`.
pub open spec fn absorb_self_loop(s: Slots, n: int) -> Slots {
    if s.a[n][n] is Some {
        let star = star_m(s.a[n][n]);
        Slots { a: star_row(s.a, n, star, 0), b: s.b.update(n, concat_m(star, s.b[n])) }
    } else {
        s
    }
}

/// Row `i` after every entry `A[i][j]` with `j < n` has absorbed the
/// detour through state `n`.
pub open spec fn reroute_row(
    a: Seq<Seq<Option<ExprModel>>>,
    n: int,
    i: int,
    escape_non_ascii: bool,
    j: int,
) -> Seq<Seq<Option<ExprModel>>>
    decreases n - j,
{
    if j < 0 || j >= n {
        a
    } else {
        let through = concat_m(a[i][n], a[n][j]);
        reroute_row(
            a.update(i, a[i].update(j, union_m(a[i][j], through, escape_non_ascii))),
            n,
            i,
            escape_non_ascii,
            j + 1,
        )
    }
}

/// Incoming absorption at state `n` for the states `i..n`: every state
/// with a transition into `n` takes over `n`'s suffix and transitions.
pub open spec fn reroute_incoming(s: Slots, n: int, escape_non_ascii: bool, i: int) -> Slots
    decreases n - i,
{
    if i < 0 || i >= n {
        s
    } else {
        let s1 = if s.a[i][n] is Some {
            Slots {
                a: reroute_row(s.a, n, i, escape_non_ascii, 0),
                b: s.b.update(
                    i,
                    union_m(s.b[i], concat_m(s.a[i][n], s.b[n]), escape_non_ascii),
                ),
            }
        } else {
            s
        };
        reroute_incoming(s1, n, escape_non_ascii, i + 1)
    }
}

/// The state of the elimination after the states `n-1` down to `0`
/// have been processed.
pub open spec fn eliminated(s: Slots, escape_non_ascii: bool, n: int) -> Slots
    decreases n,
{
    if n <= 0 {
        s
    } else {
        let m = n - 1;
        eliminated(
            reroute_incoming(absorb_self_loop(s, m), m, escape_non_ascii, 0),
            escape_non_ascii,
            m,
        )
    }
}

/// The tree the synthesis produces for the given automaton: the seeded
/// transition matrix and suffix vector, folded by state elimination;
/// the start state's suffix, or epsilon when none remains.
pub open spec fn synth_model(dfa: &Dfa, escape_non_ascii: bool) -> ExprModel {
    let n = dfa.accepting@.len() as int;
    let start = Slots {
        a: seeded(blank_matrix(n), dfa.edges@, 0, escape_non_ascii),
        b: initial_suffixes(dfa.accepting@),
    };
    let done = eliminated(start, escape_non_ascii, n);
    if n > 0 && done.b[0] is Some {
        match done.b[0] {
            Some(m) => m,
            None => ExprModel::Literal(Seq::empty()),
        }
    } else {
        ExprModel::Literal(Seq::empty())
    }
}

/// A lone accepting state without outgoing edges synthesises the
/// epsilon: its suffix starts as the epsilon literal and no edge ever
/// combines with it.
pub proof fn lemma_lone_accepting_state(dfa: &Dfa, escape_non_ascii: bool)
    requires
        dfa.accepting@ == seq![true],
        dfa.edges@.len() == 1,
        dfa.edges@[0]@.len() == 0,
    ensures
        synth_model(dfa, escape_non_ascii) == ExprModel::Literal(
            Seq::<crate::grapheme::GraphemeModel>::empty(),
        ),
        is_epsilon(synth_model(dfa, escape_non_ascii)),
{
    let blank = blank_matrix(1);
    let edges = dfa.edges@;
    assert(dfa.accepting@.len() == 1);
    assert(seeded_row(blank, 0, edges[0]@, 0, escape_non_ascii) == blank);
    assert(seeded(blank, edges, 1, escape_non_ascii) == blank);
    assert(seeded(blank, edges, 0, escape_non_ascii) == blank);
    let b0 = initial_suffixes(dfa.accepting@);
    assert(b0.len() == 1);
    assert(dfa.accepting@[0] == true);
    assert(b0[0] == Some(ExprModel::Literal(Seq::<crate::grapheme::GraphemeModel>::empty())));
    let start = Slots { a: blank, b: b0 };
    assert(blank[0][0] is None);
    assert(absorb_self_loop(start, 0) == start);
    assert(reroute_incoming(start, 0, escape_non_ascii, 0) == start);
    assert(eliminated(start, escape_non_ascii, 0) == start);
    assert(eliminated(start, escape_non_ascii, 1) == start);
}

/// An automaton for one single-grapheme word synthesises that word's
/// literal: the lone edge seeds one transition, and its concatenation
/// with the accepting suffix is the literal itself.
pub proof fn lemma_one_word(dfa: &Dfa, escape_non_ascii: bool)
    requires
        dfa.accepting@ == seq![false, true],
        dfa.edges@.len() == 2,
        dfa.edges@[0]@.len() == 1,
        dfa.edges@[0]@[0].target == 1,
        dfa.edges@[1]@.len() == 0,
    ensures
        synth_model(dfa, escape_non_ascii) == ExprModel::Literal(
            seq![dfa.edges@[0]@[0].label@],
        ),
{
    let esc = escape_non_ascii;
    let g = dfa.edges@[0]@[0].label@;
    let lit = ExprModel::Literal(seq![g]);
    let blank = blank_matrix(2);
    assert(dfa.accepting@.len() == 2);
    assert(blank[0][1] is None);
    let a1 = blank.update(0, blank[0].update(1, Some(lit)));
    assert(seeded_row(a1, 0, dfa.edges@[0]@, 1, esc) == a1);
    assert(seeded_row(blank, 0, dfa.edges@[0]@, 0, esc) == a1);
    assert(seeded_row(a1, 1, dfa.edges@[1]@, 0, esc) == a1);
    assert(seeded(a1, dfa.edges@, 2, esc) == a1);
    assert(seeded(a1, dfa.edges@, 1, esc) == a1);
    assert(seeded(blank, dfa.edges@, 0, esc) == a1);
    let b0 = initial_suffixes(dfa.accepting@);
    let eps = ExprModel::Literal(Seq::<crate::grapheme::GraphemeModel>::empty());
    assert(b0.len() == 2);
    assert(dfa.accepting@[0] == false);
    assert(dfa.accepting@[1] == true);
    assert(b0[0] is None);
    assert(b0[1] == Some(eps));
    let start = Slots { a: a1, b: b0 };
    assert(a1[1] == blank[1]);
    assert(a1[1][1] is None);
    assert(absorb_self_loop(start, 1) == start);
    assert(a1[0][1] == Some(lit));
    assert(a1[1][0] is None);
    let through0 = concat_m(a1[0][1], a1[1][0]);
    assert(through0 is None);
    assert(a1[0][0] is None);
    assert(union_m(a1[0][0], through0, esc) is None);
    let a2 = a1.update(0, a1[0].update(0, union_m(a1[0][0], through0, esc)));
    assert(reroute_row(a2, 1, 0, esc, 1) == a2);
    assert(reroute_row(a1, 1, 0, esc, 0) == a2);
    let bstep = concat_m(a1[0][1], b0[1]);
    assert(!is_epsilon(lit));
    assert(is_epsilon(eps));
    assert(bstep == Some(lit));
    assert(union_m(b0[0], bstep, esc) == bstep);
    let b1v = b0.update(0, bstep);
    let s_after1 = Slots { a: a2, b: b1v };
    assert(reroute_incoming(s_after1, 1, esc, 1) == s_after1);
    assert(reroute_incoming(start, 1, esc, 0) == s_after1);
    assert(eliminated(start, esc, 2) == eliminated(s_after1, esc, 1));
    assert(a2[0][0] is None);
    assert(absorb_self_loop(s_after1, 0) == s_after1);
    assert(reroute_incoming(s_after1, 0, esc, 0) == s_after1);
    assert(eliminated(s_after1, esc, 1) == eliminated(s_after1, esc, 0));
    assert(eliminated(s_after1, esc, 0) == s_after1);
    assert(b1v[0] == Some(lit));
    assert(synth_model(dfa, esc) == lit);
}

/// An automaton for an optional single-grapheme word synthesises a
/// question-mark repetition of that word's literal: the start state's
/// epsilon suffix absorbs the united literal.
pub proof fn lemma_optional_word(dfa: &Dfa, escape_non_ascii: bool)
    requires
        dfa.accepting@ == seq![true, true],
        dfa.edges@.len() == 2,
        dfa.edges@[0]@.len() == 1,
        dfa.edges@[0]@[0].target == 1,
        dfa.edges@[1]@.len() == 0,
    ensures
        synth_model(dfa, escape_non_ascii) == ExprModel::Repetition(
            Box::new(ExprModel::Literal(seq![dfa.edges@[0]@[0].label@])),
            crate::ast::Quantifier::QuestionMark,
        ),
{
    let esc = escape_non_ascii;
    let g = dfa.edges@[0]@[0].label@;
    let lit = ExprModel::Literal(seq![g]);
    let eps = ExprModel::Literal(Seq::<crate::grapheme::GraphemeModel>::empty());
    let blank = blank_matrix(2);
    assert(dfa.accepting@.len() == 2);
    assert(blank[0][1] is None);
    let a1 = blank.update(0, blank[0].update(1, Some(lit)));
    assert(seeded_row(a1, 0, dfa.edges@[0]@, 1, esc) == a1);
    assert(seeded_row(blank, 0, dfa.edges@[0]@, 0, esc) == a1);
    assert(seeded_row(a1, 1, dfa.edges@[1]@, 0, esc) == a1);
    assert(seeded(a1, dfa.edges@, 2, esc) == a1);
    assert(seeded(a1, dfa.edges@, 1, esc) == a1);
    assert(seeded(blank, dfa.edges@, 0, esc) == a1);
    let b0 = initial_suffixes(dfa.accepting@);
    assert(b0.len() == 2);
    assert(dfa.accepting@[0] == true);
    assert(dfa.accepting@[1] == true);
    assert(b0[0] == Some(eps));
    assert(b0[1] == Some(eps));
    let start = Slots { a: a1, b: b0 };
    assert(a1[1] == blank[1]);
    assert(a1[1][1] is None);
    assert(absorb_self_loop(start, 1) == start);
    assert(a1[0][1] == Some(lit));
    assert(a1[1][0] is None);
    let through0 = concat_m(a1[0][1], a1[1][0]);
    assert(through0 is None);
    assert(a1[0][0] is None);
    assert(union_m(a1[0][0], through0, esc) is None);
    let a2 = a1.update(0, a1[0].update(0, union_m(a1[0][0], through0, esc)));
    assert(reroute_row(a2, 1, 0, esc, 1) == a2);
    assert(reroute_row(a1, 1, 0, esc, 0) == a2);
    let bstep = concat_m(a1[0][1], b0[1]);
    assert(!is_epsilon(lit));
    assert(is_epsilon(eps));
    assert(bstep == Some(lit));
    let u = union_m(b0[0], bstep, esc);
    let expected = ExprModel::Repetition(
        Box::new(lit),
        crate::ast::Quantifier::QuestionMark,
    );
    assert(u == Some(expected)) by {
        assert(eps != lit) by {
            assert(seq![g].len() == 1);
        }
        assert(crate::ast::value_of(eps, Some(crate::ast::Substring::Prefix)) == Some(
            Seq::<crate::grapheme::GraphemeModel>::empty(),
        ));
        assert(crate::ast::exposed(eps, crate::ast::Substring::Prefix).len() == 0);
        assert(crate::ast::common_affix(eps, lit, crate::ast::Substring::Prefix).len() == 0)
            by {
            assert(crate::ast::lcp(
                crate::ast::exposed(eps, crate::ast::Substring::Prefix),
                crate::ast::exposed(lit, crate::ast::Substring::Prefix),
            ).len() == 0);
        }
        assert(crate::ast::exposed(eps, crate::ast::Substring::Suffix).len() == 0);
        assert(crate::ast::exposed(eps, crate::ast::Substring::Suffix).reverse().len() == 0);
        assert(crate::ast::common_affix(eps, lit, crate::ast::Substring::Suffix).len() == 0)
            by {
            assert(crate::ast::lcp(
                crate::ast::exposed(eps, crate::ast::Substring::Suffix).reverse(),
                crate::ast::exposed(lit, crate::ast::Substring::Suffix).reverse(),
            ).len() == 0);
        }
        assert(is_epsilon(eps));
        assert(crate::ast::union_core(eps, lit, esc) == expected);
    }
    let b1v = b0.update(0, u);
    let s_after1 = Slots { a: a2, b: b1v };
    assert(reroute_incoming(s_after1, 1, esc, 1) == s_after1);
    assert(reroute_incoming(start, 1, esc, 0) == s_after1);
    assert(eliminated(start, esc, 2) == eliminated(s_after1, esc, 1));
    assert(a2[0][0] is None);
    assert(absorb_self_loop(s_after1, 0) == s_after1);
    assert(reroute_incoming(s_after1, 0, esc, 0) == s_after1);
    assert(eliminated(s_after1, esc, 1) == eliminated(s_after1, esc, 0));
    assert(eliminated(s_after1, esc, 0) == s_after1);
    assert(b1v[0] == Some(expected));
    assert(synth_model(dfa, esc) == expected);
}

/// An automaton for two alternative one-scalar words merges them into
/// a two-member character class while seeding: the second edge unites
/// its literal with the first.
pub proof fn lemma_two_letters(dfa: &Dfa, escape_non_ascii: bool, c1: char, c2: char)
    requires
        dfa.accepting@ == seq![false, true],
        dfa.edges@.len() == 2,
        dfa.edges@[0]@.len() == 2,
        dfa.edges@[0]@[0].target == 1,
        dfa.edges@[0]@[1].target == 1,
        dfa.edges@[0]@[0].label@ == (crate::grapheme::GraphemeModel {
            chars: seq![c1],
            min: 1nat,
            max: 1nat,
        }),
        dfa.edges@[0]@[1].label@ == (crate::grapheme::GraphemeModel {
            chars: seq![c2],
            min: 1nat,
            max: 1nat,
        }),
        (c1 as u32) < (c2 as u32),
        c1 as u32 <= 127,
        c2 as u32 <= 127,
        dfa.edges@[1]@.len() == 0,
    ensures
        synth_model(dfa, escape_non_ascii) == ExprModel::CharacterClass(seq![c1, c2]),
{
    let esc = escape_non_ascii;
    let g1 = dfa.edges@[0]@[0].label@;
    let g2 = dfa.edges@[0]@[1].label@;
    let lit1 = ExprModel::Literal(seq![g1]);
    let lit2 = ExprModel::Literal(seq![g2]);
    let class = ExprModel::CharacterClass(seq![c1, c2]);
    let blank = blank_matrix(2);
    assert(dfa.accepting@.len() == 2);
    assert(blank[0][1] is None);
    let a1 = blank.update(0, blank[0].update(1, Some(lit1)));
    assert(a1[0][1] == Some(lit1));
    let u = union_m(Some(lit1), Some(lit2), esc);
    assert(u == Some(class)) by {
        assert(g1 != g2) by {
            assert(g1.chars[0] == c1);
            assert(g2.chars[0] == c2);
        }
        assert(lit1 != lit2) by {
            assert(seq![g1][0] == g1);
            assert(seq![g2][0] == g2);
        }
        assert(crate::ast::exposed(lit1, crate::ast::Substring::Prefix) == seq![g1]);
        assert(crate::ast::exposed(lit2, crate::ast::Substring::Prefix) == seq![g2]);
        assert(crate::ast::common_affix(lit1, lit2, crate::ast::Substring::Prefix).len() == 0)
            by {
            assert(seq![g1][0] != seq![g2][0]);
            assert(crate::ast::lcp(seq![g1], seq![g2]).len() == 0);
        }
        let r1 = seq![g1].reverse();
        let r2 = seq![g2].reverse();
        assert(crate::ast::common_affix(lit1, lit2, crate::ast::Substring::Suffix).len() == 0)
            by {
            assert(r1.len() == 1);
            assert(r2.len() == 1);
            assert(r1[0] == g1);
            assert(r2[0] == g2);
            assert(crate::ast::lcp(r1, r2).len() == 0);
        }
        assert(!is_epsilon(lit1));
        assert(!is_epsilon(lit2));
        assert(crate::grapheme::cluster_count(seq![g1], esc) == 1) by {
            assert(seq![g1].drop_last().len() == 0);
            assert(crate::grapheme::cluster_count(seq![g1].drop_last(), esc) == 0);
            assert(seq![g1].last() == g1);
            assert(crate::grapheme::chars_count(seq![c1], esc) == 1) by {
                assert(seq![c1].drop_last().len() == 0);
                assert(crate::grapheme::chars_count(seq![c1].drop_last(), esc) == 0);
                assert(seq![c1].last() == c1);
                assert(crate::grapheme::char_weight(c1, esc) == 1);
            }
        }
        assert(crate::grapheme::cluster_count(seq![g2], esc) == 1) by {
            assert(seq![g2].drop_last().len() == 0);
            assert(crate::grapheme::cluster_count(seq![g2].drop_last(), esc) == 0);
            assert(seq![g2].last() == g2);
            assert(crate::grapheme::chars_count(seq![c2], esc) == 1) by {
                assert(seq![c2].drop_last().len() == 0);
                assert(crate::grapheme::chars_count(seq![c2].drop_last(), esc) == 0);
                assert(seq![c2].last() == c2);
                assert(crate::grapheme::char_weight(c2, esc) == 1);
            }
        }
        assert(crate::ast::single_codepoint(lit1, esc));
        assert(crate::ast::single_codepoint(lit2, esc));
        assert(crate::ast::charset_of(lit1) == seq![c1]);
        assert(crate::ast::charset_of(lit2) == seq![c2]);
        assert(crate::ast::merge_sets(seq![c1], seq![c2]) == seq![c1, c2]) by {
            assert(seq![c1].drop_first().len() == 0);
            assert(crate::ast::merge_sets(seq![c1].drop_first(), seq![c2]) == seq![c2]);
            assert(seq![c1] + seq![c2] =~= seq![c1, c2]);
        }
        assert(crate::ast::union_core(lit1, lit2, esc) == class);
    }
    assert(a1[0][0] is None);
    let a1b = a1.update(0, a1[0].update(1, u));
    assert(seeded_row(a1b, 0, dfa.edges@[0]@, 2, esc) == a1b);
    assert(seeded_row(a1, 0, dfa.edges@[0]@, 1, esc) == a1b);
    assert(seeded_row(blank, 0, dfa.edges@[0]@, 0, esc) == a1b);
    assert(seeded_row(a1b, 1, dfa.edges@[1]@, 0, esc) == a1b);
    assert(seeded(a1b, dfa.edges@, 2, esc) == a1b);
    assert(seeded(a1b, dfa.edges@, 1, esc) == a1b);
    assert(seeded(blank, dfa.edges@, 0, esc) == a1b);
    let b0 = initial_suffixes(dfa.accepting@);
    let eps = ExprModel::Literal(Seq::<crate::grapheme::GraphemeModel>::empty());
    assert(b0.len() == 2);
    assert(dfa.accepting@[0] == false);
    assert(dfa.accepting@[1] == true);
    assert(b0[0] is None);
    assert(b0[1] == Some(eps));
    let start = Slots { a: a1b, b: b0 };
    assert(a1b[1] == blank[1]);
    assert(a1b[1][1] is None);
    assert(absorb_self_loop(start, 1) == start);
    assert(a1b[0][1] == Some(class));
    assert(a1b[1][0] is None);
    let through0 = concat_m(a1b[0][1], a1b[1][0]);
    assert(through0 is None);
    assert(a1b[0][0] is None);
    assert(union_m(a1b[0][0], through0, esc) is None);
    let a2 = a1b.update(0, a1b[0].update(0, union_m(a1b[0][0], through0, esc)));
    assert(reroute_row(a2, 1, 0, esc, 1) == a2);
    assert(reroute_row(a1b, 1, 0, esc, 0) == a2);
    let bstep = concat_m(a1b[0][1], b0[1]);
    assert(!is_epsilon(class));
    assert(is_epsilon(eps));
    assert(bstep == Some(class));
    assert(union_m(b0[0], bstep, esc) == bstep);
    let b1v = b0.update(0, bstep);
    let s_after1 = Slots { a: a2, b: b1v };
    assert(reroute_incoming(s_after1, 1, esc, 1) == s_after1);
    assert(reroute_incoming(start, 1, esc, 0) == s_after1);
    assert(eliminated(start, esc, 2) == eliminated(s_after1, esc, 1));
    assert(a2[0][0] is None);
    assert(absorb_self_loop(s_after1, 0) == s_after1);
    assert(reroute_incoming(s_after1, 0, esc, 0) == s_after1);
    assert(eliminated(s_after1, esc, 1) == eliminated(s_after1, esc, 0));
    assert(eliminated(s_after1, esc, 0) == s_after1);
    assert(b1v[0] == Some(class));
    assert(synth_model(dfa, esc) == class);
}

/// One matrix entry of the model is the model of that entry.
pub proof fn lemma_matrix_model_index(m: Seq<Vec<Option<Expression>>>, i: int, j: int)
    requires
        0 <= i < m.len(),
        0 <= j < m[i]@.len(),
    ensures
        matrix_model(m).len() == m.len(),
        matrix_model(m)[i].len() == m[i]@.len(),
        matrix_model(m)[i][j] == opt_model(m[i]@[j]),
{
    assert(matrix_model(m)[i] == row_model(m[i]));
}

/// One suffix entry of the model is the model of that entry.
pub proof fn lemma_vector_model_index(s: Seq<Option<Expression>>, i: int)
    requires
        0 <= i < s.len(),
    ensures
        vector_model(s).len() == s.len(),
        vector_model(s)[i] == opt_model(s[i]),
{
}

/// Writing one matrix entry updates the model pointwise.
pub proof fn lemma_matrix_model_update(
    m0: Seq<Vec<Option<Expression>>>,
    m1: Seq<Vec<Option<Expression>>>,
    i: int,
    j: int,
    v: Option<Expression>,
)
    requires
        0 <= i < m0.len(),
        0 <= j < m0[i]@.len(),
        m1.len() == m0.len(),
        forall|t: int| 0 <= t < m0.len() && t != i ==> m1[t] == m0[t],
        m1[i]@ == m0[i]@.update(j, v),
    ensures
        matrix_model(m1) == matrix_model(m0).update(
            i,
            matrix_model(m0)[i].update(j, opt_model(v)),
        ),
{
    let lhs = matrix_model(m1);
    let rhs = matrix_model(m0).update(i, matrix_model(m0)[i].update(j, opt_model(v)));
    assert forall|t: int| 0 <= t < lhs.len() implies lhs[t] =~= rhs[t] by {
        if t == i {
            assert forall|u: int| 0 <= u < row_model(m1[t]).len() implies row_model(m1[t])[u]
                == matrix_model(m0)[i].update(j, opt_model(v))[u] by {
                assert(row_model(m1[t])[u] == opt_model(m1[t]@[u]));
                if u == j {
                    assert(m1[t]@[u] == v);
                } else {
                    assert(m1[t]@[u] == m0[t]@[u]);
                    assert(matrix_model(m0)[i][u] == opt_model(m0[i]@[u]));
                }
            }
        } else {
            assert(m1[t] == m0[t]);
        }
    }
    assert(lhs =~~= rhs);
}

/// Writing one suffix entry updates the model pointwise.
pub proof fn lemma_vector_model_update(
    s0: Seq<Option<Expression>>,
    i: int,
    v: Option<Expression>,
)
    requires
        0 <= i < s0.len(),
    ensures
        vector_model(s0.update(i, v)) == vector_model(s0).update(i, opt_model(v)),
{
    assert(vector_model(s0.update(i, v)) =~= vector_model(s0).update(i, opt_model(v)));
}

/// Replaces one entry of the transition matrix.
fn set_entry(m: &mut Vec<Vec<Option<Expression>>>, i: usize, j: usize, v: Option<Expression>)
    requires
        i < old(m)@.len(),
        j < old(m)@[i as int]@.len(),
    ensures
        final(m)@.len() == old(m)@.len(),
        forall|t: int| 0 <= t < old(m)@.len() && t != i ==> final(m)@[t] == old(m)@[t],
        final(m)@[i as int]@ == old(m)@[i as int]@.update(j as int, v),
{
    let row = &mut m[i];
    row.set(j, v);
}

impl Expression {
    /// Synthesises the expression tree recognising exactly the language
    /// of the automaton, eliminating states in reverse depth-first
    /// order. An automaton with no states yields the epsilon.
    pub fn from(dfa: &Dfa, config: &RegExpConfig) -> (r: Expression)
        requires
            dfa.well_formed(),
        ensures
            r@ == synth_model(dfa, config.is_non_ascii_char_escaped),
            wf(r@),
            alternations_flat(r@),
            alternations_ordered(r@),
            classes_nontrivial(r@),
            spines_merged(r@),
            dfa.accepting@.len() == 0 ==> is_epsilon(r@),
    {
        let state_count = dfa.state_count();
        let mut a: Vec<Vec<Option<Expression>>> = Vec::new();
        let mut i: usize = 0;
        while i < state_count
            invariant
                a@.len() == i,
                i <= state_count,
                forall|t: int| 0 <= t < i ==> (#[trigger] a@[t])@.len() == state_count,
                forall|t: int, u: int|
                    0 <= t < i && 0 <= u < state_count ==> (#[trigger] a@[t]@[u]) is None,
            decreases state_count - i,
        {
            let mut row: Vec<Option<Expression>> = Vec::new();
            let mut j: usize = 0;
            while j < state_count
                invariant
                    row@.len() == j,
                    j <= state_count,
                    forall|u: int| 0 <= u < j ==> (#[trigger] row@[u]) is None,
                decreases state_count - j,
            {
                row.push(None);
                j += 1;
            }
            a.push(row);
            i += 1;
        }
        proof {
            assert forall|t: int|
                0 <= t < matrix_model(a@).len() implies matrix_model(a@)[t] =~= blank_matrix(
                state_count as int,
            )[t] by {
                assert(matrix_model(a@)[t] == row_model(a@[t]));
                assert forall|u: int|
                    0 <= u < row_model(a@[t]).len() implies row_model(a@[t])[u] == blank_matrix(
                    state_count as int,
                )[t][u] by {
                    assert(row_model(a@[t])[u] == opt_model(a@[t]@[u]));
                    assert(a@[t]@[u] is None);
                }
            }
            assert(matrix_model(a@) =~~= blank_matrix(state_count as int));
        }
        let mut b: Vec<Option<Expression>> = Vec::new();
        let mut i2: usize = 0;
        while i2 < state_count
            invariant
                b@.len() == i2,
                i2 <= state_count,
                state_count == dfa.accepting@.len(),
                forall|t: int| 0 <= t < i2 ==> entry_ok(#[trigger] b@[t]),
                forall|t: int|
                    0 <= t < i2 ==> opt_model(#[trigger] b@[t]) == initial_suffixes(
                        dfa.accepting@,
                    )[t],
            decreases state_count - i2,
        {
            if dfa.is_final_state(i2) {
                let eps = Expression::new_literal(GraphemeCluster::empty(), config);
                proof {
                    assert(eps@ == ExprModel::Literal(
                        Seq::<crate::grapheme::GraphemeModel>::empty(),
                    ));
                }
                b.push(Some(eps));
            } else {
                b.push(None);
            }
            i2 += 1;
        }
        proof {
            assert forall|t: int| 0 <= t < vector_model(b@).len() implies vector_model(b@)[t]
                == initial_suffixes(dfa.accepting@)[t] by {
                assert(vector_model(b@)[t] == opt_model(b@[t]));
            }
            assert(vector_model(b@) =~= initial_suffixes(dfa.accepting@));
        }
        let ghost seed_target = seeded(
            matrix_model(a@),
            dfa.edges@,
            0,
            config.is_non_ascii_char_escaped,
        );
        let mut s: usize = 0;
        while s < state_count
            invariant
                s <= state_count,
                dfa.well_formed(),
                state_count == dfa.accepting@.len(),
                a@.len() == state_count,
                b@.len() == state_count,
                forall|t: int| 0 <= t < state_count ==> (#[trigger] a@[t])@.len() == state_count,
                forall|t: int, u: int|
                    0 <= t < state_count && 0 <= u < state_count ==> entry_ok(
                        #[trigger] a@[t]@[u],
                    ),
                forall|t: int| 0 <= t < state_count ==> entry_ok(#[trigger] b@[t]),
                seeded(
                    matrix_model(a@),
                    dfa.edges@,
                    s as int,
                    config.is_non_ascii_char_escaped,
                ) == seed_target,
            decreases state_count - s,
        {
            let ghost row_entry = matrix_model(a@);
            let mut k: usize = 0;
            let edge_count = dfa.edges[s].len();
            let ghost row_target = seeded_row(
                row_entry,
                s as int,
                dfa.edges@[s as int]@,
                0,
                config.is_non_ascii_char_escaped,
            );
            while k < edge_count
                invariant
                    s < state_count,
                    k <= edge_count,
                    dfa.well_formed(),
                    state_count == dfa.accepting@.len(),
                    edge_count == dfa.edges@[s as int]@.len(),
                    a@.len() == state_count,
                    b@.len() == state_count,
                    forall|t: int|
                        0 <= t < state_count ==> (#[trigger] a@[t])@.len() == state_count,
                    forall|t: int, u: int|
                        0 <= t < state_count && 0 <= u < state_count ==> entry_ok(
                            #[trigger] a@[t]@[u],
                        ),
                    forall|t: int| 0 <= t < state_count ==> entry_ok(#[trigger] b@[t]),
                    seeded_row(
                        matrix_model(a@),
                        s as int,
                        dfa.edges@[s as int]@,
                        k as int,
                        config.is_non_ascii_char_escaped,
                    ) == row_target,
                decreases edge_count - k,
            {
                let edge = &dfa.edges[s][k];
                let grapheme = edge.label.clone();
                let literal = Expression::new_literal(GraphemeCluster::new(grapheme), config);
                let j = edge.target;
                proof {
                    assert(grapheme_ok(edge.label@));
                    assert(wf(literal@)) by {
                        assert(literal@->Literal_0 =~= seq![edge.label@]);
                    }
                }
                let updated: Option<Expression>;
                let row = &a[s];
                let cur = &row[j];
                if cur.is_some() {
                    let lit_opt = Some(literal);
                    proof {
                        assert(*cur == a@[s as int]@[j as int]);
                        assert(entry_ok(*cur));
                        assert(entry_ok(lit_opt));
                    }
                    updated = Expression::union(cur, &lit_opt, config);
                    proof {
                        lemma_union_wf(opt_model(*cur), opt_model(lit_opt), config.is_non_ascii_char_escaped);
                        assert(opt_model(updated) == union_m(
                            opt_model(*cur),
                            opt_model(lit_opt),
                            config.is_non_ascii_char_escaped,
                        ));
                        assert(entry_ok(updated));
                    }
                } else {
                    updated = Some(literal);
                    proof {
                        assert(entry_ok(updated));
                    }
                }
                let ghost a0 = a@;
                set_entry(&mut a, s, j, updated);
                proof {
                    assert forall|t: int, u: int|
                        0 <= t < state_count && 0 <= u < state_count implies entry_ok(
                        #[trigger] a@[t]@[u],
                    ) by {
                        if t == s {
                            if u != j {
                                assert(a@[t]@[u] == a0[t]@[u]);
                            }
                        } else {
                            assert(a@[t] == a0[t]);
                        }
                    }
                    assert forall|t: int| 0 <= t < state_count implies (#[trigger] a@[t])@.len()
                        == state_count by {
                        if t != s {
                            assert(a@[t] == a0[t]);
                        }
                    }
                    let m_prev = matrix_model(a0);
                    lemma_matrix_model_index(a0, s as int, j as int);
                    lemma_matrix_model_update(a0, a@, s as int, j as int, updated);
                    assert(*edge == dfa.edges@[s as int]@[k as int]);
                    assert(literal@ == ExprModel::Literal(seq![edge.label@])) by {
                        assert(literal@->Literal_0 =~= seq![edge.label@]);
                    }
                    assert(opt_model(updated) == (if m_prev[s as int][j as int] is Some {
                        union_m(
                            m_prev[s as int][j as int],
                            Some(ExprModel::Literal(seq![edge.label@])),
                            config.is_non_ascii_char_escaped,
                        )
                    } else {
                        Some(ExprModel::Literal(seq![edge.label@]))
                    }));
                    assert(seeded_row(
                        m_prev,
                        s as int,
                        dfa.edges@[s as int]@,
                        k as int,
                        config.is_non_ascii_char_escaped,
                    ) == seeded_row(
                        matrix_model(a@),
                        s as int,
                        dfa.edges@[s as int]@,
                        k + 1,
                        config.is_non_ascii_char_escaped,
                    ));
                }
                k += 1;
            }
            proof {
                assert(seeded_row(
                    matrix_model(a@),
                    s as int,
                    dfa.edges@[s as int]@,
                    edge_count as int,
                    config.is_non_ascii_char_escaped,
                ) == matrix_model(a@));
                assert(seeded(row_entry, dfa.edges@, s as int, config.is_non_ascii_char_escaped)
                    == seeded(
                    matrix_model(a@),
                    dfa.edges@,
                    s + 1,
                    config.is_non_ascii_char_escaped,
                ));
            }
            s += 1;
        }
        proof {
            assert(seeded(
                matrix_model(a@),
                dfa.edges@,
                state_count as int,
                config.is_non_ascii_char_escaped,
            ) == matrix_model(a@));
        }
        let ghost elim_start = Slots { a: matrix_model(a@), b: vector_model(b@) };
        let ghost elim_target = eliminated(
            elim_start,
            config.is_non_ascii_char_escaped,
            state_count as int,
        );
        let mut n = state_count;
        while n > 0
            invariant
                n <= state_count,
                a@.len() == state_count,
                b@.len() == state_count,
                forall|t: int| 0 <= t < state_count ==> (#[trigger] a@[t])@.len() == state_count,
                forall|t: int, u: int|
                    0 <= t < state_count && 0 <= u < state_count ==> entry_ok(
                        #[trigger] a@[t]@[u],
                    ),
                forall|t: int| 0 <= t < state_count ==> entry_ok(#[trigger] b@[t]),
                eliminated(
                    (Slots { a: matrix_model(a@), b: vector_model(b@) }),
                    config.is_non_ascii_char_escaped,
                    n as int,
                ) == elim_target,
            decreases n,
        {
            n -= 1;
            let ghost s0 = Slots { a: matrix_model(a@), b: vector_model(b@) };
            proof {
                lemma_matrix_model_index(a@, n as int, n as int);
            }
            let self_loop_present = a[n][n].is_some();
            if self_loop_present {
                let row_n = &a[n];
                let star = Expression::repeat_zero_or_more_times(&row_n[n], config);
                proof {
                    lemma_star_wf(opt_model(a@[n as int]@[n as int]));
                    assert(opt_model(star) == star_m(s0.a[n as int][n as int]));
                }
                proof {
                    assert(entry_ok(star));
                    assert(entry_ok(b@[n as int]));
                }
                let new_bn = Expression::concatenate(&star, &b[n], config);
                proof {
                    lemma_concat_wf(opt_model(star), opt_model(b@[n as int]));
                    assert(entry_ok(new_bn));
                    lemma_vector_model_index(b@, n as int);
                    assert(opt_model(new_bn) == concat_m(opt_model(star), s0.b[n as int]));
                }
                let ghost b0 = b@;
                b.set(n, new_bn);
                proof {
                    assert forall|t: int| 0 <= t < state_count implies entry_ok(
                        #[trigger] b@[t],
                    ) by {
                        if t != n {
                            assert(b@[t] == b0[t]);
                        }
                    }
                    lemma_vector_model_update(b0, n as int, new_bn);
                    assert(vector_model(b@) == s0.b.update(
                        n as int,
                        concat_m(opt_model(star), s0.b[n as int]),
                    ));
                }
                let ghost star_target = star_row(s0.a, n as int, opt_model(star), 0);
                let mut j: usize = 0;
                while j < n
                    invariant
                        j <= n,
                        n < state_count,
                        a@.len() == state_count,
                        b@.len() == state_count,
                        entry_ok(star),
                        star_row(
                            matrix_model(a@),
                            n as int,
                            opt_model(star),
                            j as int,
                        ) == star_target,
                        forall|t: int|
                            0 <= t < state_count ==> (#[trigger] a@[t])@.len() == state_count,
                        forall|t: int, u: int|
                            0 <= t < state_count && 0 <= u < state_count ==> entry_ok(
                                #[trigger] a@[t]@[u],
                            ),
                        forall|t: int| 0 <= t < state_count ==> entry_ok(#[trigger] b@[t]),
                    decreases n - j,
                {
                    let row_n2 = &a[n];
                    proof {
                        assert(entry_ok(a@[n as int]@[j as int]));
                    }
                    let new_anj = Expression::concatenate(&star, &row_n2[j], config);
                    proof {
                        lemma_concat_wf(opt_model(star), opt_model(a@[n as int]@[j as int]));
                        assert(entry_ok(new_anj));
                        lemma_matrix_model_index(a@, n as int, j as int);
                        assert(opt_model(new_anj) == concat_m(
                            opt_model(star),
                            matrix_model(a@)[n as int][j as int],
                        ));
                    }
                    let ghost a0 = a@;
                    set_entry(&mut a, n, j, new_anj);
                    proof {
                        assert forall|t: int, u: int|
                            0 <= t < state_count && 0 <= u < state_count implies entry_ok(
                            #[trigger] a@[t]@[u],
                        ) by {
                            if t == n {
                                if u != j {
                                    assert(a@[t]@[u] == a0[t]@[u]);
                                }
                            } else {
                                assert(a@[t] == a0[t]);
                            }
                        }
                        assert forall|t: int|
                            0 <= t < state_count implies (#[trigger] a@[t])@.len()
                            == state_count by {
                            if t != n {
                                assert(a@[t] == a0[t]);
                            }
                        }
                        lemma_matrix_model_update(a0, a@, n as int, j as int, new_anj);
                        assert(star_row(matrix_model(a0), n as int, opt_model(star), j as int)
                            == star_row(matrix_model(a@), n as int, opt_model(star), j + 1));
                    }
                    j += 1;
                }
                proof {
                    assert(star_row(matrix_model(a@), n as int, opt_model(star), n as int)
                        == matrix_model(a@));
                    assert(matrix_model(a@) == star_target);
                    assert((Slots { a: matrix_model(a@), b: vector_model(b@) })
                        == absorb_self_loop(s0, n as int));
                }
            }
            let ghost s1 = absorb_self_loop(s0, n as int);
            proof {
                assert((Slots { a: matrix_model(a@), b: vector_model(b@) }) == s1);
            }
            let ghost inc_target = reroute_incoming(
                s1,
                n as int,
                config.is_non_ascii_char_escaped,
                0,
            );
            let mut i3: usize = 0;
            while i3 < n
                invariant
                    i3 <= n,
                    n < state_count,
                    a@.len() == state_count,
                    b@.len() == state_count,
                    forall|t: int|
                        0 <= t < state_count ==> (#[trigger] a@[t])@.len() == state_count,
                    forall|t: int, u: int|
                        0 <= t < state_count && 0 <= u < state_count ==> entry_ok(
                            #[trigger] a@[t]@[u],
                        ),
                    forall|t: int| 0 <= t < state_count ==> entry_ok(#[trigger] b@[t]),
                    reroute_incoming(
                        (Slots { a: matrix_model(a@), b: vector_model(b@) }),
                        n as int,
                        config.is_non_ascii_char_escaped,
                        i3 as int,
                    ) == inc_target,
                decreases n - i3,
            {
                let ghost sc = Slots { a: matrix_model(a@), b: vector_model(b@) };
                proof {
                    lemma_matrix_model_index(a@, i3 as int, n as int);
                }
                let incoming_present = a[i3][n].is_some();
                if incoming_present {
                    proof {
                        assert(entry_ok(a@[i3 as int]@[n as int]));
                        assert(entry_ok(b@[n as int]));
                    }
                    let step = {
                        let row_i = &a[i3];
                        Expression::concatenate(&row_i[n], &b[n], config)
                    };
                    proof {
                        lemma_concat_wf(
                            opt_model(a@[i3 as int]@[n as int]),
                            opt_model(b@[n as int]),
                        );
                        assert(entry_ok(step));
                        lemma_vector_model_index(b@, n as int);
                        assert(opt_model(step) == concat_m(
                            sc.a[i3 as int][n as int],
                            sc.b[n as int],
                        ));
                    }
                    proof {
                        assert(entry_ok(b@[i3 as int]));
                        lemma_vector_model_index(b@, i3 as int);
                    }
                    let new_bi = Expression::union(&b[i3], &step, config);
                    proof {
                        lemma_union_wf(opt_model(b@[i3 as int]), opt_model(step), config.is_non_ascii_char_escaped);
                        assert(entry_ok(new_bi));
                        assert(opt_model(new_bi) == union_m(
                            sc.b[i3 as int],
                            concat_m(sc.a[i3 as int][n as int], sc.b[n as int]),
                            config.is_non_ascii_char_escaped,
                        ));
                    }
                    let ghost b1 = b@;
                    b.set(i3, new_bi);
                    proof {
                        assert forall|t: int| 0 <= t < state_count implies entry_ok(
                            #[trigger] b@[t],
                        ) by {
                            if t != i3 {
                                assert(b@[t] == b1[t]);
                            }
                        }
                        lemma_vector_model_update(b1, i3 as int, new_bi);
                        assert(vector_model(b@) == sc.b.update(
                            i3 as int,
                            union_m(
                                sc.b[i3 as int],
                                concat_m(sc.a[i3 as int][n as int], sc.b[n as int]),
                                config.is_non_ascii_char_escaped,
                            ),
                        ));
                    }
                    let ghost reroute_target = reroute_row(
                        sc.a,
                        n as int,
                        i3 as int,
                        config.is_non_ascii_char_escaped,
                        0,
                    );
                    let mut j2: usize = 0;
                    while j2 < n
                        invariant
                            j2 <= n,
                            i3 < n,
                            n < state_count,
                            a@.len() == state_count,
                            b@.len() == state_count,
                            reroute_row(
                                matrix_model(a@),
                                n as int,
                                i3 as int,
                                config.is_non_ascii_char_escaped,
                                j2 as int,
                            ) == reroute_target,
                            forall|t: int|
                                0 <= t < state_count ==> (#[trigger] a@[t])@.len() == state_count,
                            forall|t: int, u: int|
                                0 <= t < state_count && 0 <= u < state_count ==> entry_ok(
                                    #[trigger] a@[t]@[u],
                                ),
                            forall|t: int| 0 <= t < state_count ==> entry_ok(#[trigger] b@[t]),
                        decreases n - j2,
                    {
                        let through = {
                            let row_i = &a[i3];
                            let row_n3 = &a[n];
                            let hop = {
                                let x = &row_i[n];
                                let y = &row_n3[j2];
                                Expression::concatenate(x, y, config)
                            };
                            hop
                        };
                        proof {
                            assert(entry_ok(a@[i3 as int]@[n as int]));
                            assert(entry_ok(a@[n as int]@[j2 as int]));
                            lemma_concat_wf(
                                opt_model(a@[i3 as int]@[n as int]),
                                opt_model(a@[n as int]@[j2 as int]),
                            );
                            assert(entry_ok(through));
                            lemma_matrix_model_index(a@, i3 as int, n as int);
                            lemma_matrix_model_index(a@, n as int, j2 as int);
                            lemma_matrix_model_index(a@, i3 as int, j2 as int);
                            assert(opt_model(through) == concat_m(
                                matrix_model(a@)[i3 as int][n as int],
                                matrix_model(a@)[n as int][j2 as int],
                            ));
                        }
                        let new_aij = {
                            let row_i2 = &a[i3];
                            Expression::union(&row_i2[j2], &through, config)
                        };
                        proof {
                            assert(entry_ok(a@[i3 as int]@[j2 as int]));
                            lemma_union_wf(
                                opt_model(a@[i3 as int]@[j2 as int]),
                                opt_model(through),
                                config.is_non_ascii_char_escaped,
                            );
                            assert(entry_ok(new_aij));
                            assert(opt_model(new_aij) == union_m(
                                matrix_model(a@)[i3 as int][j2 as int],
                                opt_model(through),
                                config.is_non_ascii_char_escaped,
                            ));
                        }
                        let ghost a1 = a@;
                        set_entry(&mut a, i3, j2, new_aij);
                        proof {
                            assert forall|t: int, u: int|
                                0 <= t < state_count && 0 <= u < state_count implies entry_ok(
                                #[trigger] a@[t]@[u],
                            ) by {
                                if t == i3 {
                                    if u != j2 {
                                        assert(a@[t]@[u] == a1[t]@[u]);
                                    }
                                } else {
                                    assert(a@[t] == a1[t]);
                                }
                            }
                            assert forall|t: int|
                                0 <= t < state_count implies (#[trigger] a@[t])@.len()
                                == state_count by {
                                if t != i3 {
                                    assert(a@[t] == a1[t]);
                                }
                            }
                            lemma_matrix_model_update(a1, a@, i3 as int, j2 as int, new_aij);
                            assert(reroute_row(
                                matrix_model(a1),
                                n as int,
                                i3 as int,
                                config.is_non_ascii_char_escaped,
                                j2 as int,
                            ) == reroute_row(
                                matrix_model(a@),
                                n as int,
                                i3 as int,
                                config.is_non_ascii_char_escaped,
                                j2 + 1,
                            ));
                        }
                        j2 += 1;
                    }
                    proof {
                        assert(reroute_row(
                            matrix_model(a@),
                            n as int,
                            i3 as int,
                            config.is_non_ascii_char_escaped,
                            n as int,
                        ) == matrix_model(a@));
                        assert(matrix_model(a@) == reroute_target);
                        assert(reroute_incoming(
                            sc,
                            n as int,
                            config.is_non_ascii_char_escaped,
                            i3 as int,
                        ) == reroute_incoming(
                            (Slots { a: matrix_model(a@), b: vector_model(b@) }),
                            n as int,
                            config.is_non_ascii_char_escaped,
                            i3 + 1,
                        ));
                    }
                } else {
                    proof {
                        assert(reroute_incoming(
                            sc,
                            n as int,
                            config.is_non_ascii_char_escaped,
                            i3 as int,
                        ) == reroute_incoming(
                            sc,
                            n as int,
                            config.is_non_ascii_char_escaped,
                            i3 + 1,
                        ));
                    }
                }
                i3 += 1;
            }
            proof {
                assert(reroute_incoming(
                    (Slots { a: matrix_model(a@), b: vector_model(b@) }),
                    n as int,
                    config.is_non_ascii_char_escaped,
                    n as int,
                ) == (Slots { a: matrix_model(a@), b: vector_model(b@) }));
                assert((Slots { a: matrix_model(a@), b: vector_model(b@) }) == inc_target);
                assert(eliminated(s0, config.is_non_ascii_char_escaped, n + 1) == eliminated(
                    (Slots { a: matrix_model(a@), b: vector_model(b@) }),
                    config.is_non_ascii_char_escaped,
                    n as int,
                ));
            }
        }
        let ghost done_slots = Slots { a: matrix_model(a@), b: vector_model(b@) };
        proof {
            assert(eliminated(done_slots, config.is_non_ascii_char_escaped, 0) == done_slots);
            assert(done_slots == elim_target);
            assert(elim_start == (Slots {
                a: seeded(
                    blank_matrix(state_count as int),
                    dfa.edges@,
                    0,
                    config.is_non_ascii_char_escaped,
                ),
                b: initial_suffixes(dfa.accepting@),
            }));
            assert(done_slots == eliminated(
                (Slots {
                    a: seeded(
                        blank_matrix(state_count as int),
                        dfa.edges@,
                        0,
                        config.is_non_ascii_char_escaped,
                    ),
                    b: initial_suffixes(dfa.accepting@),
                }),
                config.is_non_ascii_char_escaped,
                state_count as int,
            ));
        }
        if state_count > 0 {
            let start = &b[0];
            match start {
                Some(expression) => {
                    let found = expression.clone();
                    proof {
                        lemma_wf_shape(found@);
                        lemma_vector_model_index(b@, 0);
                        assert(done_slots.b[0] == Some(found@));
                        assert(found@ == synth_model(dfa, config.is_non_ascii_char_escaped));
                    }
                    return found;
                },
                None => {},
            }
        }
        let r = Expression::new_literal(GraphemeCluster::empty(), config);
        proof {
            assert(wf(r@)) by {
                assert(r@->Literal_0.len() == 0);
            }
            lemma_wf_shape(r@);
            assert(r@ == ExprModel::Literal(Seq::<crate::grapheme::GraphemeModel>::empty()));
            if state_count > 0 {
                lemma_vector_model_index(b@, 0);
                assert(!(done_slots.b[0] is Some));
            }
            assert(r@ == synth_model(dfa, config.is_non_ascii_char_escaped));
        }
        r
    }
}

} // verus!
