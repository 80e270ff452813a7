//! The regular-expression tree and its basic queries.
//!
//! An `Expression` is an immutable algebraic value with five variants:
//! literals (grapheme clusters), character classes (ordered sets of
//! scalars), concatenations, alternations and repetitions. Contracts are
//! stated over `ExprModel`, the mathematical model of a tree.

use vstd::prelude::*;

use crate::grapheme::{
    clamp_usize, cluster_count, cluster_ok, GraphemeCluster, GraphemeModel, Grapheme,
};
use crate::config::RegExpConfig;

verus! {

/// The two quantifiers the core emits: `*` and `?`.
#[derive(Clone, Copy, Debug, PartialEq, Eq, Structural)]
pub enum Quantifier {
    KleeneStar,
    QuestionMark,
}

/// Which end of a literal an affix operation works on.
#[derive(Clone, Copy, Debug, PartialEq, Eq, Structural)]
pub enum Substring {
    Prefix,
    Suffix,
}

/// Mathematical model of an expression tree.
pub enum ExprModel {
    Alternation(Seq<ExprModel>),
    CharacterClass(Seq<char>),
    Concatenation(Box<ExprModel>, Box<ExprModel>),
    Literal(Seq<GraphemeModel>),
    Repetition(Box<ExprModel>, Quantifier),
}

/// A regular-expression fragment.
#[derive(Debug)]
pub enum Expression {
    Alternation(Vec<Expression>),
    CharacterClass(Vec<char>),
    Concatenation(Box<Expression>, Box<Expression>),
    Literal(GraphemeCluster),
    Repetition(Box<Expression>, Quantifier),
}

/// The model of an expression tree.
pub open spec fn expr_model(e: Expression) -> ExprModel
    decreases e,
{
    match e {
        Expression::Alternation(options) => ExprModel::Alternation(exprs_model(options@)),
        Expression::CharacterClass(chars) => ExprModel::CharacterClass(chars@),
        Expression::Concatenation(left, right) => ExprModel::Concatenation(
            Box::new(expr_model(*left)),
            Box::new(expr_model(*right)),
        ),
        Expression::Literal(cluster) => ExprModel::Literal(cluster@),
        Expression::Repetition(inner, quantifier) => ExprModel::Repetition(
            Box::new(expr_model(*inner)),
            quantifier,
        ),
    }
}

/// The models of a sequence of expression trees, in order.
pub open spec fn exprs_model(s: Seq<Expression>) -> Seq<ExprModel>
    decreases s,
{
    if s.len() == 0 {
        Seq::empty()
    } else {
        exprs_model(s.drop_last()).push(expr_model(s.last()))
    }
}

/// `exprs_model` maps the sequence elementwise.
pub proof fn lemma_exprs_model(s: Seq<Expression>)
    ensures
        exprs_model(s).len() == s.len(),
        forall|i: int| 0 <= i < s.len() ==> exprs_model(s)[i] == expr_model(#[trigger] s[i]),
    decreases s.len(),
{
    if s.len() > 0 {
        lemma_exprs_model(s.drop_last());
        assert forall|i: int| 0 <= i < s.len() implies exprs_model(s)[i] == expr_model(
            #[trigger] s[i],
        ) by {
            if i < s.len() - 1 {
                assert(s.drop_last()[i] == s[i]);
                assert(exprs_model(s)[i] == exprs_model(s.drop_last())[i]);
            } else {
                assert(s.last() == s[i]);
                assert(exprs_model(s)[i] == expr_model(s.last()));
            }
        }
    }
}

impl View for Expression {
    type V = ExprModel;

    open spec fn view(&self) -> ExprModel {
        expr_model(*self)
    }
}

/// The model of an optional expression: an absent operand stands for the
/// empty language.
pub open spec fn opt_model(o: Option<Expression>) -> Option<ExprModel> {
    match o {
        Some(e) => Some(e@),
        None => None,
    }
}

/// The epsilon: a literal whose cluster holds no graphemes.
pub open spec fn is_epsilon(m: ExprModel) -> bool {
    m matches ExprModel::Literal(s) && s.len() == 0
}

/// The minimum number of graphemes the first alternative of `m`
/// consumes, used as a cost proxy: a class counts one, a literal its
/// cluster size, a concatenation the sum of its sides, a repetition its
/// inner expression, an alternation its first child.
pub open spec fn model_len(m: ExprModel) -> nat
    decreases m,
{
    match m {
        ExprModel::Alternation(options) => if options.len() > 0 {
            model_len(options[0])
        } else {
            0
        },
        ExprModel::CharacterClass(_) => 1,
        ExprModel::Concatenation(left, right) => model_len(*left) + model_len(*right),
        ExprModel::Literal(s) => s.len(),
        ExprModel::Repetition(inner, _) => model_len(*inner),
    }
}

/// What the executable `len` reports: `model_len` clamped to `usize`.
pub open spec fn clamped_len(m: ExprModel) -> nat {
    clamp_usize(model_len(m))
}

/// Precedence consumed by the pretty printer: alternations and classes
/// bind loosest, repetitions tightest.
pub open spec fn precedence_of(m: ExprModel) -> u8 {
    match m {
        ExprModel::Alternation(_) => 1,
        ExprModel::CharacterClass(_) => 1,
        ExprModel::Concatenation(_, _) => 2,
        ExprModel::Literal(_) => 2,
        ExprModel::Repetition(_, _) => 3,
    }
}

/// Alternation children are ordered by non-increasing reported length.
pub open spec fn sorted_desc(options: Seq<ExprModel>) -> bool {
    forall|i: int, j: int|
        0 <= i < j < options.len() ==> clamped_len(#[trigger] options[i]) >= clamped_len(
            #[trigger] options[j],
        )
}

/// Two scalars with the same code point are the same scalar.
pub proof fn lemma_char_eq(c: char, d: char)
    requires
        c as u32 == d as u32,
    ensures
        c == d,
{
}

/// The scalars of a character class are strictly increasing, so the
/// class is an ordered set.
pub open spec fn strictly_increasing(cs: Seq<char>) -> bool {
    forall|i: int, j: int|
        #![trigger cs[i], cs[j]]
        0 <= i < j < cs.len() ==> (cs[i] as u32) < (cs[j] as u32)
}

/// The ordered union of two strictly increasing scalar sequences.
pub open spec fn merge_sets(a: Seq<char>, b: Seq<char>) -> Seq<char>
    decreases a.len() + b.len(),
{
    if a.len() == 0 {
        b
    } else if b.len() == 0 {
        a
    } else if (a[0] as u32) < (b[0] as u32) {
        seq![a[0]] + merge_sets(a.drop_first(), b)
    } else if (b[0] as u32) < (a[0] as u32) {
        seq![b[0]] + merge_sets(a, b.drop_first())
    } else {
        seq![a[0]] + merge_sets(a.drop_first(), b.drop_first())
    }
}

/// No concatenation may hold a literal on one side and an immediate
/// literal on the inner side of a concatenation on the other: the
/// combinators merge such adjacent literal fragments instead.
pub open spec fn spine_ok(left: ExprModel, right: ExprModel) -> bool {
    &&& match right {
        ExprModel::Concatenation(first, _) => left is Literal ==> !((*first) is Literal),
        _ => true,
    }
    &&& match left {
        ExprModel::Concatenation(_, second) => right is Literal ==> !((*second) is Literal),
        _ => true,
    }
}

/// Well-formedness of a tree, as the combinators maintain it:
/// alternations are flat, have at least two children and are sorted by
/// non-increasing length; character classes hold at least two strictly
/// increasing scalars; concatenations keep literal fragments merged; and
/// every grapheme is well-formed.
pub open spec fn wf(m: ExprModel) -> bool
    decreases m,
{
    match m {
        ExprModel::Alternation(options) => {
            &&& options.len() >= 2
            &&& forall|i: int| 0 <= i < options.len() ==> wf(#[trigger] options[i])
            &&& forall|i: int|
                0 <= i < options.len() ==> !((#[trigger] options[i]) is Alternation)
            &&& sorted_desc(options)
        },
        ExprModel::CharacterClass(cs) => cs.len() >= 2 && strictly_increasing(cs),
        ExprModel::Concatenation(left, right) => wf(*left) && wf(*right) && spine_ok(
            *left,
            *right,
        ),
        ExprModel::Literal(s) => cluster_ok(s),
        ExprModel::Repetition(inner, _) => wf(*inner),
    }
}

/// A node eligible for character-class merging: a class, or a literal of
/// exactly one character whose grapheme occurs at most once.
pub open spec fn single_codepoint(m: ExprModel, escape_non_ascii: bool) -> bool {
    match m {
        ExprModel::CharacterClass(_) => true,
        ExprModel::Literal(s) => cluster_count(s, escape_non_ascii) == 1 && s.len() >= 1
            && s[0].max == 1,
        _ => false,
    }
}

/// The scalar set a single-codepoint node contributes to a class: a
/// literal gives the first scalar of its first grapheme, a class gives
/// its whole set.
pub open spec fn charset_of(m: ExprModel) -> Seq<char> {
    match m {
        ExprModel::Literal(s) => seq![s[0].chars[0]],
        ExprModel::CharacterClass(cs) => cs,
        _ => Seq::empty(),
    }
}

/// The optional affix argument, dereferenced into the model.
pub open spec fn sub_model(substring: Option<&Substring>) -> Option<Substring> {
    match substring {
        Some(s) => Some(*s),
        None => None,
    }
}

/// What `value` exposes: a literal exposes its graphemes; a
/// concatenation exposes the graphemes of its left (prefix) or right
/// (suffix) child only when that child is itself a literal. The
/// inspection is local: it never descends deeper.
pub open spec fn value_of(m: ExprModel, substring: Option<Substring>) -> Option<
    Seq<GraphemeModel>,
>
    decreases m,
{
    match m {
        ExprModel::Concatenation(left, right) => match substring {
            Some(Substring::Prefix) => value_of(*left, None),
            Some(Substring::Suffix) => value_of(*right, None),
            None => None,
        },
        ExprModel::Literal(s) => Some(s),
        _ => None,
    }
}

/// The model of an optional grapheme vector.
pub open spec fn opt_graphemes_model(o: Option<Vec<Grapheme>>) -> Option<Seq<GraphemeModel>> {
    match o {
        Some(v) => Some(Seq::new(v@.len(), |i: int| v@[i]@)),
        None => None,
    }
}

/// Whether `remove_substring` may drain `n` graphemes from the given
/// end: the literal it would reach must hold at least `n` graphemes.
/// Shapes the operation does not touch accept any `n`.
pub open spec fn removable(m: ExprModel, substring: Substring, n: nat) -> bool {
    match m {
        ExprModel::Concatenation(left, right) => match substring {
            Substring::Prefix => (*left matches ExprModel::Literal(s) ==> n <= s.len()),
            Substring::Suffix => (*right matches ExprModel::Literal(s) ==> n <= s.len()),
        },
        ExprModel::Literal(s) => n <= s.len(),
        _ => true,
    }
}

/// What `remove_substring` leaves behind: a literal loses its first or
/// last `n` graphemes; a concatenation forwards the operation to its
/// left or right child only when that child is a literal; every other
/// shape is untouched.
pub open spec fn remove_model(m: ExprModel, substring: Substring, n: nat) -> ExprModel
    decreases m,
{
    match m {
        ExprModel::Concatenation(left, right) => match substring {
            Substring::Prefix => if (*left) is Literal {
                ExprModel::Concatenation(Box::new(remove_model(*left, substring, n)), right)
            } else {
                ExprModel::Concatenation(left, right)
            },
            Substring::Suffix => if (*right) is Literal {
                ExprModel::Concatenation(left, Box::new(remove_model(*right, substring, n)))
            } else {
                ExprModel::Concatenation(left, right)
            },
        },
        ExprModel::Literal(s) => match substring {
            Substring::Prefix => ExprModel::Literal(s.skip(n as int)),
            Substring::Suffix => ExprModel::Literal(s.take(s.len() - n)),
        },
        _ => m,
    }
}

/// Recursively flattens nested alternations into one list, in order.
pub open spec fn flatten_m(s: Seq<ExprModel>) -> Seq<ExprModel>
    decreases s,
{
    if s.len() == 0 {
        Seq::empty()
    } else {
        match s[0] {
            ExprModel::Alternation(options) => flatten_m(options) + flatten_m(s.drop_first()),
            _ => seq![s[0]] + flatten_m(s.drop_first()),
        }
    }
}

/// Stable insertion into a list sorted by non-increasing length: the new
/// element goes after every element at least as long.
pub open spec fn insert_desc(x: ExprModel, s: Seq<ExprModel>) -> Seq<ExprModel>
    decreases s.len(),
{
    if s.len() == 0 {
        seq![x]
    } else if clamped_len(x) > clamped_len(s[0]) {
        seq![x] + s
    } else {
        seq![s[0]] + insert_desc(x, s.drop_first())
    }
}

/// Stable sort by non-increasing length: elements are inserted in input
/// order, each after its equals.
pub open spec fn sort_desc(s: Seq<ExprModel>) -> Seq<ExprModel>
    decreases s.len(),
{
    if s.len() == 0 {
        Seq::empty()
    } else {
        insert_desc(s.last(), sort_desc(s.drop_last()))
    }
}

/// What the alternation constructor builds from two trees: their
/// flattened children, stably sorted by non-increasing length.
pub open spec fn alternation_of(a: ExprModel, b: ExprModel) -> ExprModel {
    ExprModel::Alternation(sort_desc(flatten_m(seq![a, b])))
}

/// What `repeat_zero_or_more_times` builds: a Kleene-star repetition of
/// a present operand, or nothing.
pub open spec fn star_m(o: Option<ExprModel>) -> Option<ExprModel> {
    match o {
        Some(m) => Some(ExprModel::Repetition(Box::new(m), Quantifier::KleeneStar)),
        None => None,
    }
}

/// What `concatenate` builds: absent if either operand is absent; the
/// other operand if one is the epsilon; merged literals where literal
/// fragments meet; otherwise a concatenation node.
pub open spec fn concat_m(a: Option<ExprModel>, b: Option<ExprModel>) -> Option<ExprModel> {
    match (a, b) {
        (Some(x), Some(y)) => if is_epsilon(x) {
            b
        } else if is_epsilon(y) {
            a
        } else {
            match x {
                ExprModel::Literal(ga) => match y {
                    ExprModel::Literal(gb) => Some(ExprModel::Literal(ga + gb)),
                    ExprModel::Concatenation(first, second) => match *first {
                        ExprModel::Literal(gf) => Some(
                            ExprModel::Concatenation(
                                Box::new(ExprModel::Literal(ga + gf)),
                                second,
                            ),
                        ),
                        _ => Some(ExprModel::Concatenation(Box::new(x), Box::new(y))),
                    },
                    _ => Some(ExprModel::Concatenation(Box::new(x), Box::new(y))),
                },
                ExprModel::Concatenation(first, second) => match y {
                    ExprModel::Literal(gb) => match *second {
                        ExprModel::Literal(gs) => Some(
                            ExprModel::Concatenation(
                                first,
                                Box::new(ExprModel::Literal(gs + gb)),
                            ),
                        ),
                        _ => Some(ExprModel::Concatenation(Box::new(x), Box::new(y))),
                    },
                    _ => Some(ExprModel::Concatenation(Box::new(x), Box::new(y))),
                },
                _ => Some(ExprModel::Concatenation(Box::new(x), Box::new(y))),
            }
        },
        _ => None,
    }
}

/// Longest run of pairwise-equal leading graphemes.
pub open spec fn lcp(a: Seq<GraphemeModel>, b: Seq<GraphemeModel>) -> Seq<GraphemeModel>
    decreases a.len(),
{
    if a.len() == 0 || b.len() == 0 {
        Seq::empty()
    } else if a[0] == b[0] {
        seq![a[0]] + lcp(a.drop_first(), b.drop_first())
    } else {
        Seq::empty()
    }
}

/// The grapheme run a tree exposes at the given end, absence reading as
/// the empty run.
pub open spec fn exposed(m: ExprModel, substring: Substring) -> Seq<GraphemeModel> {
    match value_of(m, Some(substring)) {
        Some(s) => s,
        None => Seq::empty(),
    }
}

/// The common affix of what two trees expose at the given end: a common
/// prefix as is; a common suffix through reversal.
pub open spec fn common_affix(a: ExprModel, b: ExprModel, substring: Substring) -> Seq<
    GraphemeModel,
> {
    match substring {
        Substring::Prefix => lcp(exposed(a, Substring::Prefix), exposed(b, Substring::Prefix)),
        Substring::Suffix => lcp(
            exposed(a, Substring::Suffix).reverse(),
            exposed(b, Substring::Suffix).reverse(),
        ).reverse(),
    }
}

/// The common affix as `find_common_substring` reports it: absent when
/// empty.
pub open spec fn common_affix_opt(a: ExprModel, b: ExprModel, substring: Substring) -> Option<
    Seq<GraphemeModel>,
> {
    if common_affix(a, b, substring).len() == 0 {
        None
    } else {
        Some(common_affix(a, b, substring))
    }
}

/// The heart of `union`, after affix factoring: epsilon absorption
/// first, then optional-repetition absorption, then character-class
/// merging, then a plain alternation.
pub open spec fn union_core(x: ExprModel, y: ExprModel, escape_non_ascii: bool) -> ExprModel {
    if is_epsilon(x) {
        ExprModel::Repetition(Box::new(y), Quantifier::QuestionMark)
    } else if is_epsilon(y) {
        ExprModel::Repetition(Box::new(x), Quantifier::QuestionMark)
    } else {
        match x {
            ExprModel::Repetition(xi, Quantifier::QuestionMark) => ExprModel::Repetition(
                Box::new(alternation_of(*xi, y)),
                Quantifier::QuestionMark,
            ),
            _ => match y {
                ExprModel::Repetition(yi, Quantifier::QuestionMark) => ExprModel::Repetition(
                    Box::new(alternation_of(x, *yi)),
                    Quantifier::QuestionMark,
                ),
                _ => if single_codepoint(x, escape_non_ascii) && single_codepoint(
                    y,
                    escape_non_ascii,
                ) {
                    ExprModel::CharacterClass(merge_sets(charset_of(x), charset_of(y)))
                } else {
                    alternation_of(x, y)
                },
            },
        }
    }
}

/// What `union` builds: the present operand if only one is present, the
/// left operand if they are equal, and otherwise the factored core
/// re-wrapped in the common prefix and suffix.
pub open spec fn union_m(a: Option<ExprModel>, b: Option<ExprModel>, escape_non_ascii: bool)
    -> Option<ExprModel> {
    match (a, b) {
        (Some(x0), Some(y0)) => if x0 == y0 {
            a
        } else {
            let p = common_affix(x0, y0, Substring::Prefix);
            let x1 = if p.len() == 0 {
                x0
            } else {
                remove_model(x0, Substring::Prefix, p.len())
            };
            let y1 = if p.len() == 0 {
                y0
            } else {
                remove_model(y0, Substring::Prefix, p.len())
            };
            let s = common_affix(x1, y1, Substring::Suffix);
            let x2 = if s.len() == 0 {
                x1
            } else {
                remove_model(x1, Substring::Suffix, s.len())
            };
            let y2 = if s.len() == 0 {
                y1
            } else {
                remove_model(y1, Substring::Suffix, s.len())
            };
            let core = union_core(x2, y2, escape_non_ascii);
            let with_prefix = if p.len() == 0 {
                core
            } else {
                ExprModel::Concatenation(Box::new(ExprModel::Literal(p)), Box::new(core))
            };
            let full = if s.len() == 0 {
                with_prefix
            } else {
                ExprModel::Concatenation(Box::new(with_prefix), Box::new(ExprModel::Literal(s)))
            };
            Some(full)
        },
        (Some(_), None) => a,
        (None, Some(_)) => b,
        (None, None) => None,
    }
}

impl Expression {
    /// A literal holding the given cluster.
    pub fn new_literal(cluster: GraphemeCluster, _config: &RegExpConfig) -> (r: Expression)
        ensures
            r@ == ExprModel::Literal(cluster@),
    {
        Expression::Literal(cluster)
    }

    /// The concatenation of the two given trees, without simplification.
    pub fn new_concatenation(expr1: Expression, expr2: Expression, _config: &RegExpConfig) -> (r:
        Expression)
        ensures
            r@ == ExprModel::Concatenation(Box::new(expr1@), Box::new(expr2@)),
    {
        Expression::Concatenation(Box::new(expr1), Box::new(expr2))
    }

    /// A repetition of the given tree under the given quantifier.
    pub fn new_repetition(expr: Expression, quantifier: Quantifier, _config: &RegExpConfig) -> (r:
        Expression)
        ensures
            r@ == ExprModel::Repetition(Box::new(expr@), quantifier),
    {
        Expression::Repetition(Box::new(expr), quantifier)
    }

    /// The character class holding the union of the two given ordered
    /// scalar sets.
    pub fn new_character_class(
        first_char_set: Vec<char>,
        second_char_set: Vec<char>,
        _config: &RegExpConfig,
    ) -> (r: Expression)
        requires
            strictly_increasing(first_char_set@),
            strictly_increasing(second_char_set@),
        ensures
            r@ == ExprModel::CharacterClass(merge_sets(first_char_set@, second_char_set@)),
    {
        let a = &first_char_set;
        let b = &second_char_set;
        let mut out: Vec<char> = Vec::new();
        let mut i: usize = 0;
        let mut j: usize = 0;
        proof {
            assert(a@.skip(0) =~= a@);
            assert(b@.skip(0) =~= b@);
            assert(Seq::<char>::empty() + merge_sets(a@, b@) =~= merge_sets(a@, b@));
        }
        while i < a.len() || j < b.len()
            invariant
                i <= a@.len(),
                j <= b@.len(),
                merge_sets(a@, b@) == out@ + merge_sets(a@.skip(i as int), b@.skip(j as int)),
            decreases a@.len() - i + b@.len() - j,
        {
            let ghost out0 = out@;
            let ghost sa = a@.skip(i as int);
            let ghost sb = b@.skip(j as int);
            let take_a: bool;
            let take_b: bool;
            if i >= a.len() {
                take_a = false;
                take_b = true;
            } else if j >= b.len() {
                take_a = true;
                take_b = false;
            } else {
                let ca = a[i];
                let cb = b[j];
                if (ca as u32) < (cb as u32) {
                    take_a = true;
                    take_b = false;
                } else if (cb as u32) < (ca as u32) {
                    take_a = false;
                    take_b = true;
                } else {
                    proof {
                        lemma_char_eq(ca, cb);
                    }
                    take_a = true;
                    take_b = true;
                }
            }
            if take_a {
                out.push(a[i]);
            } else {
                out.push(b[j]);
            }
            proof {
                let sa1 = a@.skip(i + if take_a { 1int } else { 0int });
                let sb1 = b@.skip(j + if take_b { 1int } else { 0int });
                if i < a@.len() {
                    assert(sa[0] == a@[i as int]);
                }
                if j < b@.len() {
                    assert(sb[0] == b@[j as int]);
                }
                if take_a {
                    assert(sa.drop_first() =~= sa1);
                }
                if take_b {
                    assert(sb.drop_first() =~= sb1);
                }
                if take_a && take_b {
                    assert(merge_sets(sa, sb) == seq![a@[i as int]] + merge_sets(sa1, sb1));
                } else if take_a {
                    if j >= b@.len() {
                        assert(sb.len() == 0);
                        assert(sa =~= seq![a@[i as int]] + sa1);
                        assert(merge_sets(sa, sb) == sa);
                        assert(merge_sets(sa1, sb1) == sa1);
                    } else {
                        assert(merge_sets(sa, sb) == seq![a@[i as int]] + merge_sets(sa1, sb1));
                    }
                } else {
                    if i >= a@.len() {
                        assert(sa.len() == 0);
                        assert(sb =~= seq![b@[j as int]] + sb1);
                        assert(merge_sets(sa, sb) == sb);
                        assert(merge_sets(sa1, sb1) == sb1);
                    } else {
                        assert(merge_sets(sa, sb) == seq![b@[j as int]] + merge_sets(sa1, sb1));
                    }
                }
                assert(out@ =~= out0 + seq![out@.last()]);
                assert(out0 + merge_sets(sa, sb) =~= out@ + merge_sets(sa1, sb1));
            }
            if take_a {
                i += 1;
            }
            if take_b {
                j += 1;
            }
        }
        proof {
            assert(a@.skip(i as int).len() == 0);
            assert(b@.skip(j as int).len() == 0);
            assert(merge_sets(a@.skip(i as int), b@.skip(j as int)).len() == 0);
            assert(out@ + merge_sets(a@.skip(i as int), b@.skip(j as int)) =~= out@);
        }
        Expression::CharacterClass(out)
    }

    /// Whether this node is the epsilon.
    pub fn is_empty(&self) -> (r: bool)
        ensures
            r == is_epsilon(self@),
    {
        match self {
            Expression::Literal(cluster) => cluster.is_empty(),
            _ => false,
        }
    }

    /// The precedence the pretty printer relies on for grouping.
    pub fn precedence(&self) -> (r: u8)
        ensures
            r == precedence_of(self@),
    {
        match self {
            Expression::Alternation(_) => 1,
            Expression::CharacterClass(_) => 1,
            Expression::Concatenation(_, _) => 2,
            Expression::Literal(_) => 2,
            Expression::Repetition(_, _) => 3,
        }
    }

    /// The minimum number of graphemes the first alternative consumes,
    /// clamped to `usize`.
    pub fn len(&self) -> (r: usize)
        requires
            wf(self@),
        ensures
            r as nat == clamped_len(self@),
        decreases self,
    {
        match self {
            Expression::Alternation(options) => {
                proof {
                    lemma_exprs_model(options@);
                }
                options[0].len()
            },
            Expression::CharacterClass(_) => 1,
            Expression::Concatenation(left, right) => {
                let a = left.len();
                let b = right.len();
                proof {
                    let lm = model_len(left@);
                    let rm = model_len(right@);
                    assert(a as nat == clamp_usize(lm));
                    assert(b as nat == clamp_usize(rm));
                }
                if a > usize::MAX - b {
                    usize::MAX
                } else {
                    a + b
                }
            },
            Expression::Literal(cluster) => cluster.size(),
            Expression::Repetition(inner, _) => inner.len(),
        }
    }

    /// Whether this node may merge into a character class: a class, or a
    /// literal counting as exactly one character whose grapheme occurs
    /// at most once under the configured escaping mode.
    pub fn is_single_codepoint(&self, config: &RegExpConfig) -> (r: bool)
        ensures
            r == single_codepoint(self@, config.is_non_ascii_char_escaped),
    {
        match self {
            Expression::CharacterClass(_) => true,
            Expression::Literal(cluster) => {
                let count = cluster.char_count(config.is_non_ascii_char_escaped);
                if count != 1 {
                    false
                } else {
                    proof {
                        if cluster@.len() == 0 {
                            assert(cluster_count(cluster@, config.is_non_ascii_char_escaped)
                                == 0);
                        }
                    }
                    let graphemes = cluster.graphemes();
                    let max_one = graphemes[0].maximum() == 1;
                    proof {
                        assert(graphemes@[0]@ == cluster@[0]);
                    }
                    max_one
                }
            },
            _ => false,
        }
    }

    /// The grapheme sequence this node locally exposes at the given end,
    /// if any: see `value_of`.
    pub fn value(&self, substring: Option<&Substring>) -> (r: Option<Vec<Grapheme>>)
        ensures
            opt_graphemes_model(r) == value_of(self@, sub_model(substring)),
        decreases self,
    {
        match self {
            Expression::Concatenation(expr1, expr2) => match substring {
                Some(sub) => match sub {
                    Substring::Prefix => expr1.value(None),
                    Substring::Suffix => expr2.value(None),
                },
                None => None,
            },
            Expression::Literal(cluster) => {
                let copy = cluster.clone();
                let r = Some(copy.graphemes);
                proof {
                    assert(opt_graphemes_model(r) == Some(copy@));
                }
                r
            },
            _ => None,
        }
    }

    /// Drains `n` leading (prefix) or trailing (suffix) graphemes from
    /// the literal this node locally exposes at that end; a no-op on
    /// every other shape. The caller must not drain more graphemes than
    /// that literal holds.
    pub fn remove_substring(&mut self, substring: &Substring, length: usize)
        requires
            removable(old(self)@, *substring, length as nat),
        ensures
            final(self)@ == remove_model(old(self)@, *substring, length as nat),
        decreases *old(self),
    {
        match self {
            Expression::Concatenation(expr1, expr2) => {
                let ghost left0 = (**expr1)@;
                let ghost right0 = (**expr2)@;
                proof {
                    assert(old(self)@ == ExprModel::Concatenation(
                        Box::new(left0),
                        Box::new(right0),
                    ));
                }
                match substring {
                    Substring::Prefix => {
                        let descend = matches!(&**expr1, Expression::Literal(_));
                        if descend {
                            (**expr1).remove_substring(substring, length);
                            proof {
                                assert(self@ == ExprModel::Concatenation(
                                    Box::new((**expr1)@),
                                    Box::new(right0),
                                ));
                            }
                        } else {
                            proof {
                                assert(self@ == old(self)@);
                            }
                        }
                    },
                    Substring::Suffix => {
                        let descend = matches!(&**expr2, Expression::Literal(_));
                        if descend {
                            (**expr2).remove_substring(substring, length);
                            proof {
                                assert(self@ == ExprModel::Concatenation(
                                    Box::new(left0),
                                    Box::new((**expr2)@),
                                ));
                            }
                        } else {
                            proof {
                                assert(self@ == old(self)@);
                            }
                        }
                    },
                }
            },
            Expression::Literal(cluster) => match substring {
                Substring::Prefix => {
                    cluster.remove_leading(length);
                    proof {
                        assert(cluster@ =~= old(self)@->Literal_0.skip(length as int));
                    }
                },
                Substring::Suffix => {
                    cluster.remove_trailing(length);
                    proof {
                        assert(cluster@ =~= old(self)@->Literal_0.take(
                            old(self)@->Literal_0.len() - length as nat,
                        ));
                    }
                },
            },
            _ => {},
        }
    }

    /// The ordered scalar set a single-codepoint node contributes to a
    /// character class: see `charset_of`.
    pub fn extract_character_set(expr: Expression) -> (r: Vec<char>)
        requires
            expr@ matches ExprModel::Literal(s) ==> s.len() >= 1 && s[0].chars.len() >= 1,
        ensures
            r@ == charset_of(expr@),
    {
        match expr {
            Expression::Literal(cluster) => {
                let graphemes = cluster.graphemes();
                let g = &graphemes[0];
                proof {
                    assert(graphemes@[0]@ == cluster@[0]);
                }
                let c = g.value()[0];
                let mut out: Vec<char> = Vec::new();
                out.push(c);
                proof {
                    assert(out@ =~= charset_of(ExprModel::Literal(cluster@)));
                }
                out
            },
            Expression::CharacterClass(chars) => chars,
            _ => Vec::new(),
        }
    }
}

/// Elementwise comparison of two scalar vectors.
fn chars_eq(a: &Vec<char>, b: &Vec<char>) -> (r: bool)
    ensures
        r == (a@ == b@),
{
    if a.len() != b.len() {
        return false;
    }
    let mut i: usize = 0;
    while i < a.len()
        invariant
            i <= a@.len(),
            a@.len() == b@.len(),
            forall|k: int| 0 <= k < i ==> a@[k] == b@[k],
        decreases a@.len() - i,
    {
        if a[i] != b[i] {
            return false;
        }
        i += 1;
    }
    proof {
        assert(a@ =~= b@);
    }
    true
}

impl Clone for Expression {
    fn clone(&self) -> (r: Self)
        ensures
            r@ == self@,
        decreases self,
    {
        match self {
            Expression::Alternation(options) => {
                proof {
                    lemma_exprs_model(options@);
                }
                let mut out: Vec<Expression> = Vec::new();
                let mut i: usize = 0;
                while i < options.len()
                    invariant
                        i <= options@.len(),
                        out@.len() == i,
                        forall|k: int|
                            0 <= k < i ==> expr_model(#[trigger] out@[k]) == expr_model(
                                options@[k],
                            ),
                        *self == Expression::Alternation(*options),
                    decreases options@.len() - i,
                {
                    proof {
                        assert(*options == (*self)->Alternation_0);
                        assert(decreases_to!(*self => (*self)->Alternation_0));
                        assert(decreases_to!(*options => options@[i as int]));
                    }
                    let c = options[i].clone();
                    out.push(c);
                    i += 1;
                }
                let r = Expression::Alternation(out);
                proof {
                    lemma_exprs_model(out@);
                    assert forall|k: int| 0 <= k < out@.len() implies exprs_model(out@)[k]
                        == exprs_model(options@)[k] by {
                        assert(expr_model(out@[k]) == expr_model(options@[k]));
                    }
                    assert(exprs_model(out@) =~= exprs_model(options@));
                }
                r
            },
            Expression::CharacterClass(chars) => {
                let mut out: Vec<char> = Vec::new();
                let mut i: usize = 0;
                while i < chars.len()
                    invariant
                        i <= chars@.len(),
                        out@ == chars@.subrange(0, i as int),
                    decreases chars@.len() - i,
                {
                    out.push(chars[i]);
                    proof {
                        assert(out@ =~= chars@.subrange(0, i + 1));
                    }
                    i += 1;
                }
                proof {
                    assert(out@ =~= chars@);
                }
                Expression::CharacterClass(out)
            },
            Expression::Concatenation(left, right) => Expression::Concatenation(
                Box::new((**left).clone()),
                Box::new((**right).clone()),
            ),
            Expression::Literal(cluster) => Expression::Literal(cluster.clone()),
            Expression::Repetition(inner, quantifier) => Expression::Repetition(
                Box::new((**inner).clone()),
                *quantifier,
            ),
        }
    }
}

impl PartialEq for Expression {
    fn eq(&self, other: &Expression) -> (r: bool)
        decreases self,
    {
        match (self, other) {
            (Expression::Alternation(x), Expression::Alternation(y)) => {
                proof {
                    lemma_exprs_model(x@);
                    lemma_exprs_model(y@);
                }
                if x.len() != y.len() {
                    return false;
                }
                let mut i: usize = 0;
                while i < x.len()
                    invariant
                        i <= x@.len(),
                        x@.len() == y@.len(),
                        exprs_model(x@).len() == x@.len(),
                        exprs_model(y@).len() == y@.len(),
                        forall|k: int|
                            0 <= k < x@.len() ==> exprs_model(x@)[k] == expr_model(
                                #[trigger] x@[k],
                            ),
                        forall|k: int|
                            0 <= k < y@.len() ==> exprs_model(y@)[k] == expr_model(
                                #[trigger] y@[k],
                            ),
                        forall|k: int|
                            0 <= k < i ==> expr_model(#[trigger] x@[k]) == expr_model(y@[k]),
                        *self == Expression::Alternation(*x),
                        *other == Expression::Alternation(*y),
                    decreases x@.len() - i,
                {
                    proof {
                        assert(*x == (*self)->Alternation_0);
                        assert(decreases_to!(*self => (*self)->Alternation_0));
                        assert(decreases_to!(*x => x@[i as int]));
                    }
                    let eq_here = x[i].eq(&y[i]);
                    if !eq_here {
                        proof {
                            assert(exprs_model(x@)[i as int] != exprs_model(y@)[i as int]);
                            assert(exprs_model(x@) != exprs_model(y@));
                            assert(self@ != other@);
                        }
                        return false;
                    }
                    i += 1;
                }
                proof {
                    assert forall|k: int| 0 <= k < x@.len() implies exprs_model(x@)[k]
                        == exprs_model(y@)[k] by {
                        assert(expr_model(x@[k]) == expr_model(y@[k]));
                    }
                    assert(exprs_model(x@) =~= exprs_model(y@));
                }
                true
            },
            (Expression::CharacterClass(x), Expression::CharacterClass(y)) => chars_eq(x, y),
            (
                Expression::Concatenation(left1, right1),
                Expression::Concatenation(left2, right2),
            ) => {
                let left_eq = (**left1).eq(&**left2);
                if left_eq {
                    (**right1).eq(&**right2)
                } else {
                    false
                }
            },
            (Expression::Literal(c1), Expression::Literal(c2)) => c1 == c2,
            (Expression::Repetition(inner1, q1), Expression::Repetition(inner2, q2)) => {
                if *q1 == *q2 {
                    (**inner1).eq(&**inner2)
                } else {
                    false
                }
            },
            _ => false,
        }
    }
}

impl vstd::std_specs::cmp::PartialEqSpecImpl for Expression {
    open spec fn obeys_eq_spec() -> bool {
        true
    }

    open spec fn eq_spec(&self, other: &Expression) -> bool {
        self@ == other@
    }
}

} // verus!
