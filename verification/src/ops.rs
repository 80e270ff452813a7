//! The normalising combinators: `concatenate`, `union`,
//! `repeat_zero_or_more_times` and the alternation constructor, together
//! with the affix helpers they share. Each executable function is pinned
//! to a mathematical mirror over `ExprModel`.

use vstd::prelude::*;

use crate::ast::{
    alternation_of, charset_of, clamped_len, common_affix, common_affix_opt, concat_m, exposed,
    expr_model, exprs_model, flatten_m, insert_desc, is_epsilon, lcp, lemma_exprs_model,
    merge_sets, opt_graphemes_model, opt_model, remove_model, removable, single_codepoint,
    sort_desc, star_m, strictly_increasing, sub_model, union_core, union_m, value_of, wf, ExprModel,
    Expression, Quantifier, Substring,
};
use crate::config::RegExpConfig;
use crate::grapheme::{Grapheme, GraphemeCluster, GraphemeModel};

verus! {

/// The number of nodes of a tree; the flattening worklist shrinks by it.
pub open spec fn msize(m: ExprModel) -> nat
    decreases m,
{
    match m {
        ExprModel::Alternation(options) => 1 + msizes(options),
        ExprModel::CharacterClass(_) => 1,
        ExprModel::Concatenation(left, right) => 1 + msize(*left) + msize(*right),
        ExprModel::Literal(_) => 1,
        ExprModel::Repetition(inner, _) => 1 + msize(*inner),
    }
}

/// Total node count of a sequence of trees.
pub open spec fn msizes(s: Seq<ExprModel>) -> nat
    decreases s,
{
    if s.len() == 0 {
        0
    } else {
        msize(s[0]) + msizes(s.drop_first())
    }
}

/// Every tree has at least one node.
pub proof fn lemma_msize_pos(m: ExprModel)
    ensures
        msize(m) >= 1,
{
    match m {
        ExprModel::Alternation(_) => {},
        ExprModel::CharacterClass(_) => {},
        ExprModel::Concatenation(_, _) => {},
        ExprModel::Literal(_) => {},
        ExprModel::Repetition(_, _) => {},
    }
}

/// Node counts add over concatenation of sequences.
pub proof fn lemma_msizes_add(x: Seq<ExprModel>, y: Seq<ExprModel>)
    ensures
        msizes(x + y) == msizes(x) + msizes(y),
    decreases x.len(),
{
    if x.len() == 0 {
        assert(x + y =~= y);
    } else {
        assert((x + y).drop_first() =~= x.drop_first() + y);
        assert((x + y)[0] == x[0]);
        lemma_msizes_add(x.drop_first(), y);
    }
}

/// Flattening distributes over concatenation of sequences.
pub proof fn lemma_flatten_add(x: Seq<ExprModel>, y: Seq<ExprModel>)
    ensures
        flatten_m(x + y) == flatten_m(x) + flatten_m(y),
    decreases x.len(),
{
    if x.len() == 0 {
        assert(x + y =~= y);
        assert(flatten_m(x) + flatten_m(y) =~= flatten_m(y));
    } else {
        assert((x + y).drop_first() =~= x.drop_first() + y);
        assert((x + y)[0] == x[0]);
        lemma_flatten_add(x.drop_first(), y);
        match x[0] {
            ExprModel::Alternation(opts) => {
                assert(flatten_m(opts) + (flatten_m(x.drop_first()) + flatten_m(y)) =~= (
                flatten_m(opts) + flatten_m(x.drop_first())) + flatten_m(y));
            },
            _ => {
                assert(seq![x[0]] + (flatten_m(x.drop_first()) + flatten_m(y)) =~= (seq![x[0]]
                    + flatten_m(x.drop_first())) + flatten_m(y));
            },
        }
    }
}

/// Flattening a sequence of well-formed trees yields at least as many
/// children, each well-formed and none an alternation.
pub proof fn lemma_flatten_elems(s: Seq<ExprModel>)
    requires
        forall|i: int| 0 <= i < s.len() ==> wf(#[trigger] s[i]),
    ensures
        flatten_m(s).len() >= s.len(),
        forall|k: int|
            0 <= k < flatten_m(s).len() ==> wf(#[trigger] flatten_m(s)[k]) && !(flatten_m(s)[k]
                is Alternation),
    decreases s,
{
    if s.len() > 0 {
        assert(forall|i: int|
            0 <= i < s.drop_first().len() ==> wf(#[trigger] s.drop_first()[i]));
        lemma_flatten_elems(s.drop_first());
        match s[0] {
            ExprModel::Alternation(opts) => {
                assert(wf(s[0]));
                assert(forall|i: int| 0 <= i < opts.len() ==> wf(#[trigger] opts[i]));
                lemma_flatten_elems(opts);
                assert(flatten_m(s) == flatten_m(opts) + flatten_m(s.drop_first()));
                assert(opts.len() >= 2);
            },
            _ => {
                assert(flatten_m(s) == seq![s[0]] + flatten_m(s.drop_first()));
            },
        }
    }
}

/// Positional characterisation of `insert_desc`: inserting `x` at the
/// first index whose element is strictly shorter than `x` is what the
/// recursive definition computes.
pub proof fn lemma_insert_desc_at(s: Seq<ExprModel>, x: ExprModel, pos: int)
    requires
        0 <= pos <= s.len(),
        forall|t: int| 0 <= t < pos ==> clamped_len(#[trigger] s[t]) >= clamped_len(x),
        pos < s.len() ==> clamped_len(s[pos]) < clamped_len(x),
    ensures
        insert_desc(x, s) == s.insert(pos, x),
    decreases pos,
{
    if pos == 0 {
        if s.len() == 0 {
            assert(insert_desc(x, s) =~= s.insert(0, x));
        } else {
            assert(clamped_len(s[0]) < clamped_len(x));
            assert(insert_desc(x, s) == seq![x] + s);
            assert(seq![x] + s =~= s.insert(0, x));
        }
    } else {
        assert(clamped_len(s[0]) >= clamped_len(x));
        lemma_insert_desc_at(s.drop_first(), x, pos - 1);
        assert(insert_desc(x, s) == seq![s[0]] + insert_desc(x, s.drop_first()));
        assert(seq![s[0]] + s.drop_first().insert(pos - 1, x) =~= s.insert(pos, x));
    }
}

/// The longest common prefix is a prefix of both sequences, and the two
/// differ right after it.
pub proof fn lemma_lcp_basic(x: Seq<GraphemeModel>, y: Seq<GraphemeModel>)
    ensures
        lcp(x, y).len() <= x.len(),
        lcp(x, y).len() <= y.len(),
        lcp(x, y) == x.subrange(0, lcp(x, y).len() as int),
        lcp(x, y) == y.subrange(0, lcp(x, y).len() as int),
        lcp(x, y).len() < x.len() && lcp(x, y).len() < y.len() ==> x[lcp(x, y).len() as int]
            != y[lcp(x, y).len() as int],
    decreases x.len(),
{
    if x.len() == 0 || y.len() == 0 {
        assert(lcp(x, y) =~= x.subrange(0, 0));
        assert(lcp(x, y) =~= y.subrange(0, 0));
    } else if x[0] == y[0] {
        lemma_lcp_basic(x.drop_first(), y.drop_first());
        let rest = lcp(x.drop_first(), y.drop_first());
        assert(lcp(x, y) == seq![x[0]] + rest);
        assert(seq![x[0]] + x.drop_first().subrange(0, rest.len() as int) =~= x.subrange(
            0,
            rest.len() as int + 1,
        ));
        assert(seq![y[0]] + y.drop_first().subrange(0, rest.len() as int) =~= y.subrange(
            0,
            rest.len() as int + 1,
        ));
    } else {
        assert(lcp(x, y) =~= x.subrange(0, 0));
        assert(lcp(x, y) =~= y.subrange(0, 0));
    }
}

/// A run of pairwise-equal leading graphemes that ends at a mismatch or
/// at the end of either sequence is exactly the longest common prefix.
pub proof fn lemma_lcp_characterize(x: Seq<GraphemeModel>, y: Seq<GraphemeModel>, k: int)
    requires
        0 <= k <= x.len(),
        k <= y.len(),
        forall|i: int| 0 <= i < k ==> x[i] == y[i],
        k < x.len() && k < y.len() ==> x[k] != y[k],
    ensures
        lcp(x, y) == x.subrange(0, k),
    decreases k,
{
    if k == 0 {
        if x.len() == 0 || y.len() == 0 {
            assert(lcp(x, y) =~= x.subrange(0, 0));
        } else {
            assert(x[0] != y[0]);
            assert(lcp(x, y) =~= x.subrange(0, 0));
        }
    } else {
        assert(x[0] == y[0]);
        assert(forall|i: int|
            0 <= i < k - 1 ==> #[trigger] x.drop_first()[i] == y.drop_first()[i]);
        lemma_lcp_characterize(x.drop_first(), y.drop_first(), k - 1);
        assert(lcp(x, y) == seq![x[0]] + x.drop_first().subrange(0, k - 1));
        assert(seq![x[0]] + x.drop_first().subrange(0, k - 1) =~= x.subrange(0, k));
    }
}

/// Removing an affix never breaks well-formedness: a trimmed literal is
/// still a literal over well-formed graphemes, and the surrounding
/// shape is unchanged.
pub proof fn lemma_remove_wf(m: ExprModel, substring: Substring, n: nat)
    requires
        wf(m),
        removable(m, substring, n),
    ensures
        wf(remove_model(m, substring, n)),
    decreases m,
{
    match m {
        ExprModel::Concatenation(left, right) => {
            if (*left) is Literal && substring is Prefix {
                lemma_remove_wf(*left, substring, n);
            }
            if (*right) is Literal && substring is Suffix {
                lemma_remove_wf(*right, substring, n);
            }
        },
        ExprModel::Literal(s) => match substring {
            Substring::Prefix => {
                assert forall|i: int|
                    0 <= i < s.skip(n as int).len() implies crate::grapheme::grapheme_ok(
                    #[trigger] s.skip(n as int)[i],
                ) by {
                    assert(s.skip(n as int)[i] == s[i + n]);
                }
            },
            Substring::Suffix => {
                assert forall|i: int|
                    0 <= i < s.take(s.len() - n).len() implies crate::grapheme::grapheme_ok(
                    #[trigger] s.take(s.len() - n)[i],
                ) by {
                    assert(s.take(s.len() - n)[i] == s[i]);
                }
            },
        },
        _ => {},
    }
}

/// `insert_desc` keeps every element well-formed and flat, and grows the
/// list by one.
pub proof fn lemma_insert_desc_elems(x: ExprModel, s: Seq<ExprModel>)
    requires
        wf(x),
        !(x is Alternation),
        forall|i: int| 0 <= i < s.len() ==> wf(#[trigger] s[i]) && !(s[i] is Alternation),
    ensures
        insert_desc(x, s).len() == s.len() + 1,
        forall|k: int|
            0 <= k < insert_desc(x, s).len() ==> wf(#[trigger] insert_desc(x, s)[k]) && !(
            insert_desc(x, s)[k] is Alternation),
    decreases s.len(),
{
    if s.len() == 0 {
    } else if clamped_len(x) > clamped_len(s[0]) {
    } else {
        assert(forall|i: int|
            0 <= i < s.drop_first().len() ==> wf(#[trigger] s.drop_first()[i]) && !(
            s.drop_first()[i] is Alternation));
        lemma_insert_desc_elems(x, s.drop_first());
    }
}

/// Sorting keeps the elements well-formed and flat, and keeps the count.
pub proof fn lemma_sort_desc_elems(s: Seq<ExprModel>)
    requires
        forall|i: int| 0 <= i < s.len() ==> wf(#[trigger] s[i]) && !(s[i] is Alternation),
    ensures
        sort_desc(s).len() == s.len(),
        forall|k: int|
            0 <= k < sort_desc(s).len() ==> wf(#[trigger] sort_desc(s)[k]) && !(sort_desc(s)[k]
                is Alternation),
    decreases s.len(),
{
    if s.len() > 0 {
        assert(forall|i: int|
            0 <= i < s.drop_last().len() ==> wf(#[trigger] s.drop_last()[i]) && !(
            s.drop_last()[i] is Alternation));
        lemma_sort_desc_elems(s.drop_last());
        lemma_insert_desc_elems(s.last(), sort_desc(s.drop_last()));
    }
}

/// Draining no more graphemes than the exposed literal holds is always
/// permitted; so is draining from a shape the operation does not touch.
pub proof fn lemma_affix_removable(m: ExprModel, substring: Substring, n: nat)
    requires
        value_of(m, Some(substring)) matches Some(s) ==> n <= s.len(),
    ensures
        removable(m, substring, n),
{
    match m {
        ExprModel::Concatenation(left, right) => match substring {
            Substring::Prefix => {
                assert(value_of(m, Some(substring)) == value_of(*left, None));
                if (*left) is Literal {
                    assert(value_of(*left, None) matches Some(s) && n <= s.len());
                }
            },
            Substring::Suffix => {
                assert(value_of(m, Some(substring)) == value_of(*right, None));
                if (*right) is Literal {
                    assert(value_of(*right, None) matches Some(s) && n <= s.len());
                }
            },
        },
        _ => {},
    }
}

impl Expression {
    /// Wraps a present operand in a Kleene-star repetition.
    pub fn repeat_zero_or_more_times(expr: &Option<Expression>, config: &RegExpConfig) -> (r:
        Option<Expression>)
        ensures
            opt_model(r) == star_m(opt_model(*expr)),
    {
        match expr {
            Some(value) => Some(
                Expression::new_repetition(value.clone(), Quantifier::KleeneStar, config),
            ),
            None => None,
        }
    }

    /// Concatenates two optional trees, merging adjacent literal
    /// fragments and absorbing the epsilon: see `concat_m`.
    pub fn concatenate(
        a: &Option<Expression>,
        b: &Option<Expression>,
        _config: &RegExpConfig,
    ) -> (r: Option<Expression>)
        ensures
            opt_model(r) == concat_m(opt_model(*a), opt_model(*b)),
    {
        match (a, b) {
            (Some(expr1), Some(expr2)) => {
                proof {
                    assert(*a == Some(*expr1));
                    assert(*b == Some(*expr2));
                }
                if expr1.is_empty() {
                    return Some(expr2.clone());
                }
                if expr2.is_empty() {
                    return Some(expr1.clone());
                }
                match (expr1, expr2) {
                    (Expression::Literal(graphemes_a), Expression::Literal(graphemes_b)) => {
                        let r = Some(
                            Expression::Literal(GraphemeCluster::merge(graphemes_a, graphemes_b)),
                        );
                        proof {
                            assert(opt_model(r) == concat_m(opt_model(*a), opt_model(*b)));
                        }
                        r
                    },
                    (Expression::Literal(graphemes_a), Expression::Concatenation(
                        first,
                        second,
                    )) => match &**first {
                        Expression::Literal(graphemes_first) => {
                            let literal = Expression::Literal(
                                GraphemeCluster::merge(graphemes_a, graphemes_first),
                            );
                            let r = Some(
                                Expression::Concatenation(
                                    Box::new(literal),
                                    Box::new((**second).clone()),
                                ),
                            );
                            proof {
                                assert(expr2@ == ExprModel::Concatenation(
                                    Box::new((**first)@),
                                    Box::new((**second)@),
                                ));
                                assert((**first)@ == ExprModel::Literal(graphemes_first@));
                                assert(literal@ == ExprModel::Literal(
                                    graphemes_a@ + graphemes_first@,
                                ));
                                assert(opt_model(r) == Some(ExprModel::Concatenation(
                                    Box::new(ExprModel::Literal(graphemes_a@ + graphemes_first@)),
                                    Box::new((**second)@),
                                )));
                                assert(opt_model(r) == concat_m(opt_model(*a), opt_model(*b)));
                            }
                            r
                        },
                        _ => {
                            let r = Some(
                                Expression::Concatenation(
                                    Box::new(expr1.clone()),
                                    Box::new(expr2.clone()),
                                ),
                            );
                            proof {
                                assert(opt_model(r) == Some(ExprModel::Concatenation(
                                    Box::new(expr1@),
                                    Box::new(expr2@),
                                )));
                                assert(opt_model(r) == concat_m(opt_model(*a), opt_model(*b)));
                            }
                            r
                        },
                    },
                    (Expression::Concatenation(first, second), Expression::Literal(
                        graphemes_b,
                    )) => match &**second {
                        Expression::Literal(graphemes_second) => {
                            let literal = Expression::Literal(
                                GraphemeCluster::merge(graphemes_second, graphemes_b),
                            );
                            let r = Some(
                                Expression::Concatenation(
                                    Box::new((**first).clone()),
                                    Box::new(literal),
                                ),
                            );
                            proof {
                                assert(expr1@ == ExprModel::Concatenation(
                                    Box::new((**first)@),
                                    Box::new((**second)@),
                                ));
                                assert((**second)@ == ExprModel::Literal(graphemes_second@));
                                assert(literal@ == ExprModel::Literal(
                                    graphemes_second@ + graphemes_b@,
                                ));
                                assert(opt_model(r) == Some(ExprModel::Concatenation(
                                    Box::new((**first)@),
                                    Box::new(ExprModel::Literal(
                                        graphemes_second@ + graphemes_b@,
                                    )),
                                )));
                                assert(opt_model(r) == concat_m(opt_model(*a), opt_model(*b)));
                            }
                            r
                        },
                        _ => {
                            let r = Some(
                                Expression::Concatenation(
                                    Box::new(expr1.clone()),
                                    Box::new(expr2.clone()),
                                ),
                            );
                            proof {
                                assert(opt_model(r) == Some(ExprModel::Concatenation(
                                    Box::new(expr1@),
                                    Box::new(expr2@),
                                )));
                                assert(opt_model(r) == concat_m(opt_model(*a), opt_model(*b)));
                            }
                            r
                        },
                    },
                    _ => {
                        let r = Some(
                            Expression::Concatenation(
                                Box::new(expr1.clone()),
                                Box::new(expr2.clone()),
                            ),
                        );
                        proof {
                            assert(opt_model(r) == Some(ExprModel::Concatenation(
                                Box::new(expr1@),
                                Box::new(expr2@),
                            )));
                            assert(opt_model(r) == concat_m(opt_model(*a), opt_model(*b)));
                        }
                        r
                    },
                }
            },
            _ => None,
        }
    }

    /// The longest grapheme run the two trees share at the given end of
    /// their exposed literals, or nothing when they share none.
    pub fn find_common_substring(
        a: &Expression,
        b: &Expression,
        substring: &Substring,
    ) -> (r: Option<Vec<Grapheme>>)
        ensures
            opt_graphemes_model(r) == common_affix_opt(a@, b@, *substring),
    {
        let graphemes_a = match a.value(Some(substring)) {
            Some(v) => v,
            None => Vec::new(),
        };
        let graphemes_b = match b.value(Some(substring)) {
            Some(v) => v,
            None => Vec::new(),
        };
        let ghost xa = Seq::new(graphemes_a@.len(), |i: int| graphemes_a@[i]@);
        let ghost xb = Seq::new(graphemes_b@.len(), |i: int| graphemes_b@[i]@);
        proof {
            if value_of(a@, Some(*substring)) is None {
                assert(xa =~= exposed(a@, *substring));
            }
            if value_of(b@, Some(*substring)) is None {
                assert(xb =~= exposed(b@, *substring));
            }
            assert(xa == exposed(a@, *substring));
            assert(xb == exposed(b@, *substring));
        }
        let la = graphemes_a.len();
        let lb = graphemes_b.len();
        let limit = if la < lb {
            la
        } else {
            lb
        };
        let mut k: usize = 0;
        let is_prefix = matches!(substring, Substring::Prefix);
        if is_prefix {
            while k < limit && graphemes_a[k] == graphemes_b[k]
                invariant
                    k <= limit,
                    limit <= la,
                    limit <= lb,
                    la == xa.len(),
                    lb == xb.len(),
                    la == graphemes_a@.len(),
                    lb == graphemes_b@.len(),
                    xa == Seq::new(graphemes_a@.len(), |i: int| graphemes_a@[i]@),
                    xb == Seq::new(graphemes_b@.len(), |i: int| graphemes_b@[i]@),
                    forall|i: int| 0 <= i < k ==> xa[i] == xb[i],
                decreases limit - k,
            {
                proof {
                    assert(xa[k as int] == graphemes_a@[k as int]@);
                    assert(xb[k as int] == graphemes_b@[k as int]@);
                }
                k += 1;
            }
            proof {
                if k < limit {
                    assert(xa[k as int] == graphemes_a@[k as int]@);
                    assert(xb[k as int] == graphemes_b@[k as int]@);
                }
                lemma_lcp_characterize(xa, xb, k as int);
                assert(common_affix(a@, b@, *substring) == xa.subrange(0, k as int));
            }
            if k == 0 {
                proof {
                    assert(common_affix(a@, b@, *substring).len() == 0);
                }
                None
            } else {
                let mut out: Vec<Grapheme> = Vec::new();
                let mut idx: usize = 0;
                while idx < k
                    invariant
                        idx <= k,
                        k <= graphemes_a@.len(),
                        out@.len() == idx,
                        xa == Seq::new(graphemes_a@.len(), |i: int| graphemes_a@[i]@),
                        xa.len() == graphemes_a@.len(),
                        forall|t: int| 0 <= t < idx ==> #[trigger] out@[t]@ == xa[t],
                    decreases k - idx,
                {
                    out.push(graphemes_a[idx].clone());
                    proof {
                        assert(xa[idx as int] == graphemes_a@[idx as int]@);
                    }
                    idx += 1;
                }
                let r = Some(out);
                proof {
                    assert(Seq::new(out@.len(), |i: int| out@[i]@) =~= xa.subrange(0, k as int));
                }
                r
            }
        } else {
            while k < limit && graphemes_a[la - 1 - k] == graphemes_b[lb - 1 - k]
                invariant
                    k <= limit,
                    limit <= la,
                    limit <= lb,
                    la == xa.len(),
                    lb == xb.len(),
                    la == graphemes_a@.len(),
                    lb == graphemes_b@.len(),
                    xa == Seq::new(graphemes_a@.len(), |i: int| graphemes_a@[i]@),
                    xb == Seq::new(graphemes_b@.len(), |i: int| graphemes_b@[i]@),
                    forall|i: int|
                        #![trigger xa[la - 1 - i]]
                        0 <= i < k ==> xa[la - 1 - i] == xb[lb - 1 - i],
                decreases limit - k,
            {
                proof {
                    assert(xa[la - 1 - k as int] == graphemes_a@[la - 1 - k as int]@);
                    assert(xb[lb - 1 - k as int] == graphemes_b@[lb - 1 - k as int]@);
                }
                k += 1;
            }
            let ghost ra = xa.reverse();
            let ghost rb = xb.reverse();
            proof {
                assert(ra.len() == xa.len());
                assert(rb.len() == xb.len());
                assert forall|i: int| 0 <= i < k implies ra[i] == rb[i] by {
                    assert(ra[i] == xa[la - 1 - i]);
                    assert(rb[i] == xb[lb - 1 - i]);
                }
                if k < limit {
                    assert(xa[la - 1 - k as int] == graphemes_a@[la - 1 - k as int]@);
                    assert(xb[lb - 1 - k as int] == graphemes_b@[lb - 1 - k as int]@);
                    assert(ra[k as int] == xa[la - 1 - k as int]);
                    assert(rb[k as int] == xb[lb - 1 - k as int]);
                }
                lemma_lcp_characterize(ra, rb, k as int);
                assert(lcp(ra, rb) == ra.subrange(0, k as int));
                assert(common_affix(a@, b@, *substring) == ra.subrange(0, k as int).reverse());
                assert(ra.subrange(0, k as int).reverse() =~= xa.subrange(
                    la - k as int,
                    la as int,
                ));
            }
            if k == 0 {
                proof {
                    assert(common_affix(a@, b@, *substring).len() == 0);
                }
                None
            } else {
                let mut out: Vec<Grapheme> = Vec::new();
                let mut idx: usize = la - k;
                while idx < la
                    invariant
                        la - k <= idx <= la,
                        k <= la,
                        out@.len() == idx - (la - k),
                        la == graphemes_a@.len(),
                        xa == Seq::new(graphemes_a@.len(), |i: int| graphemes_a@[i]@),
                        xa.len() == graphemes_a@.len(),
                        forall|t: int|
                            0 <= t < idx - (la - k) ==> #[trigger] out@[t]@ == xa[la - k + t],
                    decreases la - idx,
                {
                    out.push(graphemes_a[idx].clone());
                    proof {
                        assert(xa[idx as int] == graphemes_a@[idx as int]@);
                    }
                    idx += 1;
                }
                let r = Some(out);
                proof {
                    assert(Seq::new(out@.len(), |i: int| out@[i]@) =~= xa.subrange(
                        la - k as int,
                        la as int,
                    ));
                }
                r
            }
        }
    }

    /// Removes the common affix from both trees and hands it back;
    /// leaves both untouched when they share none.
    pub fn remove_common_substring(
        a: &mut Expression,
        b: &mut Expression,
        substring: Substring,
    ) -> (r: Option<Vec<Grapheme>>)
        ensures
            ({
                let c = common_affix(old(a)@, old(b)@, substring);
                &&& c.len() == 0 ==> final(a)@ == old(a)@ && final(b)@ == old(b)@ && r is None
                &&& c.len() > 0 ==> {
                    &&& final(a)@ == remove_model(old(a)@, substring, c.len())
                    &&& final(b)@ == remove_model(old(b)@, substring, c.len())
                    &&& opt_graphemes_model(r) == Some(c)
                }
            }),
    {
        let common_substring = Expression::find_common_substring(a, b, &substring);
        let ghost c = common_affix(old(a)@, old(b)@, substring);
        match &common_substring {
            Some(value) => {
                proof {
                    lemma_affix_len_removable(old(a)@, old(b)@, substring);
                }
                a.remove_substring(&substring, value.len());
                b.remove_substring(&substring, value.len());
            },
            None => {},
        }
        common_substring
    }
}

impl Expression {
    /// Appends to `flattened_options` the members of `current_options`,
    /// splicing the children of any nested alternation in, depth first
    /// and in order.
    pub fn flatten_alternations(
        flattened_options: &mut Vec<Expression>,
        current_options: Vec<Expression>,
    )
        ensures
            exprs_model(final(flattened_options)@) == exprs_model(old(flattened_options)@)
                + flatten_m(exprs_model(current_options@)),
    {
        let ghost target = exprs_model(old(flattened_options)@) + flatten_m(
            exprs_model(current_options@),
        );
        let mut rest = current_options;
        while rest.len() > 0
            invariant
                exprs_model(flattened_options@) + flatten_m(exprs_model(rest@)) == target,
            decreases msizes(exprs_model(rest@)),
        {
            let ghost ms = exprs_model(rest@);
            let ghost fl0 = exprs_model(flattened_options@);
            proof {
                lemma_exprs_model(rest@);
            }
            let option = rest.remove(0);
            let ghost om = option@;
            proof {
                assert(om == ms[0]);
                lemma_exprs_model(rest@);
                assert forall|t: int| 0 <= t < rest@.len() implies exprs_model(rest@)[t]
                    == ms.drop_first()[t] by {
                    assert(exprs_model(rest@)[t] == expr_model(rest@[t]));
                }
                assert(exprs_model(rest@) =~= ms.drop_first());
            }
            match option {
                Expression::Alternation(expr_options) => {
                    let ghost child_vec = expr_options@;
                    let ghost child = exprs_model(expr_options@);
                    let ghost tail_vec = rest@;
                    proof {
                        lemma_exprs_model(child_vec);
                        lemma_exprs_model(tail_vec);
                        assert(om == ExprModel::Alternation(child));
                        assert(flatten_m(ms) == flatten_m(child) + flatten_m(ms.drop_first()));
                    }
                    let mut tmp = expr_options;
                    tmp.append(&mut rest);
                    rest = tmp;
                    proof {
                        assert(rest@ == child_vec + tail_vec);
                        lemma_exprs_model(rest@);
                        assert forall|t: int| 0 <= t < rest@.len() implies exprs_model(rest@)[t]
                            == (child + exprs_model(tail_vec))[t] by {
                            assert(exprs_model(rest@)[t] == expr_model(rest@[t]));
                            if t < child_vec.len() {
                                assert(rest@[t] == child_vec[t]);
                                assert(child[t] == expr_model(child_vec[t]));
                            } else {
                                assert(rest@[t] == tail_vec[t - child_vec.len()]);
                                assert(exprs_model(tail_vec)[t - child_vec.len()] == expr_model(
                                    tail_vec[t - child_vec.len()],
                                ));
                            }
                        }
                        assert(exprs_model(rest@) =~= child + exprs_model(tail_vec));
                        assert(exprs_model(tail_vec) =~= ms.drop_first());
                        lemma_flatten_add(child, ms.drop_first());
                        assert(fl0 + (flatten_m(child) + flatten_m(ms.drop_first())) =~= (fl0
                            + flatten_m(child)) + flatten_m(ms.drop_first()));
                        lemma_msizes_add(child, ms.drop_first());
                        assert(msize(ms[0]) == 1 + msizes(child));
                    }
                },
                other => {
                    let ghost fl_vec = flattened_options@;
                    let ghost fl_before = exprs_model(fl_vec);
                    proof {
                        lemma_exprs_model(fl_vec);
                    }
                    flattened_options.push(other);
                    proof {
                        lemma_exprs_model(flattened_options@);
                        assert forall|t: int|
                            0 <= t < flattened_options@.len() implies exprs_model(
                            flattened_options@,
                        )[t] == fl_before.push(om)[t] by {
                            assert(exprs_model(flattened_options@)[t] == expr_model(
                                flattened_options@[t],
                            ));
                            if t < fl_vec.len() {
                                assert(flattened_options@[t] == fl_vec[t]);
                                assert(fl_before[t] == expr_model(fl_vec[t]));
                            }
                        }
                        assert(exprs_model(flattened_options@) =~= fl_before.push(om));
                        assert(flatten_m(ms) == seq![om] + flatten_m(ms.drop_first()));
                        assert(fl_before.push(om) + flatten_m(ms.drop_first()) =~= fl_before + (
                        seq![om] + flatten_m(ms.drop_first())));
                        lemma_msize_pos(om);
                    }
                },
            }
        }
        proof {
            assert(exprs_model(rest@).len() == 0);
            assert(exprs_model(rest@) =~= Seq::<ExprModel>::empty());
            assert(flatten_m(exprs_model(rest@)) =~= Seq::<ExprModel>::empty());
            assert(exprs_model(flattened_options@) + flatten_m(exprs_model(rest@)) =~=
            exprs_model(flattened_options@));
        }
    }

    /// Builds an alternation from two trees: nested alternations are
    /// flattened away and the children are stably sorted by
    /// non-increasing length.
    pub fn new_alternation(
        expr1: Expression,
        expr2: Expression,
        config: &RegExpConfig,
    ) -> (r: Expression)
        requires
            wf(expr1@),
            wf(expr2@),
        ensures
            r@ == alternation_of(expr1@, expr2@),
    {
        let ghost m1 = expr1@;
        let ghost m2 = expr2@;
        let mut options: Vec<Expression> = Vec::new();
        let mut initial: Vec<Expression> = Vec::new();
        initial.push(expr1);
        initial.push(expr2);
        proof {
            lemma_exprs_model(initial@);
            assert(initial@.len() == 2);
            assert(expr_model(initial@[0]) == m1);
            assert(expr_model(initial@[1]) == m2);
            assert(exprs_model(initial@) =~= seq![m1, m2]);
        }
        Expression::flatten_alternations(&mut options, initial);
        let ghost all = exprs_model(options@);
        proof {
            assert(exprs_model(Seq::<Expression>::empty()).len() == 0);
            assert(all =~= flatten_m(seq![m1, m2]));
            assert(all == flatten_m(seq![m1, m2]));
            let ghost pair = seq![m1, m2];
            assert forall|i: int| 0 <= i < pair.len() implies wf(#[trigger] pair[i]) by {
                assert(pair[0] == m1);
                assert(pair[1] == m2);
            }
            lemma_flatten_elems(seq![m1, m2]);
            lemma_exprs_model(options@);
        }
        let mut sorted: Vec<Expression> = Vec::new();
        let ghost mut done: int = 0;
        proof {
            assert(all.skip(0) =~= all);
            assert(all.take(0).len() == 0);
            assert(exprs_model(sorted@).len() == 0);
            assert(exprs_model(sorted@) =~= sort_desc(all.take(0)));
        }
        while options.len() > 0
            invariant
                0 <= done <= all.len(),
                all.len() == done + options@.len(),
                exprs_model(options@) == all.skip(done),
                exprs_model(sorted@) == sort_desc(all.take(done)),
                forall|t: int|
                    0 <= t < all.len() ==> wf(#[trigger] all[t]) && !(all[t] is Alternation),
                forall|t: int| 0 <= t < sorted@.len() ==> wf(expr_model(#[trigger] sorted@[t])),
            decreases options@.len(),
        {
            let ghost rem = exprs_model(options@);
            proof {
                lemma_exprs_model(options@);
            }
            let x = options.remove(0);
            let ghost xm = x@;
            proof {
                assert(xm == rem[0]);
                assert(xm == all[done]);
                lemma_exprs_model(options@);
                assert forall|t: int| 0 <= t < options@.len() implies exprs_model(options@)[t]
                    == all.skip(done + 1)[t] by {
                    assert(exprs_model(options@)[t] == expr_model(options@[t]));
                    assert(rem[t + 1] == all.skip(done)[t + 1]);
                }
                assert(exprs_model(options@) =~= all.skip(done + 1));
            }
            let x_len = x.len();
            let ghost sm = exprs_model(sorted@);
            proof {
                lemma_exprs_model(sorted@);
            }
            let mut pos: usize = 0;
            while pos < sorted.len() && sorted[pos].len() >= x_len
                invariant
                    pos <= sorted@.len(),
                    sm == exprs_model(sorted@),
                    sm.len() == sorted@.len(),
                    x_len as nat == clamped_len(xm),
                    forall|t: int|
                        0 <= t < sorted@.len() ==> wf(expr_model(#[trigger] sorted@[t])),
                    forall|t: int|
                        0 <= t < sorted@.len() ==> exprs_model(sorted@)[t] == expr_model(
                            #[trigger] sorted@[t],
                        ),
                    forall|t: int| 0 <= t < pos ==> clamped_len(#[trigger] sm[t]) >= x_len as nat,
                decreases sorted@.len() - pos,
            {
                proof {
                    assert(sm[pos as int] == expr_model(sorted@[pos as int]));
                }
                pos += 1;
            }
            proof {
                if pos < sorted@.len() {
                    assert(sm[pos as int] == expr_model(sorted@[pos as int]));
                }
                lemma_insert_desc_at(sm, xm, pos as int);
                assert(sort_desc(all.take(done + 1)) == insert_desc(
                    all.take(done + 1).last(),
                    sort_desc(all.take(done + 1).drop_last()),
                ));
                assert(all.take(done + 1).last() == all[done]);
                assert(all.take(done + 1).drop_last() =~= all.take(done));
            }
            let ghost sorted_before = sorted@;
            sorted.insert(pos, x);
            proof {
                lemma_exprs_model(sorted@);
                assert forall|t: int| 0 <= t < sorted@.len() implies exprs_model(sorted@)[t]
                    == sm.insert(pos as int, xm)[t] by {
                    assert(exprs_model(sorted@)[t] == expr_model(sorted@[t]));
                    assert(sorted@ == sorted_before.insert(pos as int, x));
                    if t < pos {
                        assert(sorted@[t] == sorted_before[t]);
                        lemma_exprs_model(sorted_before);
                    } else if t == pos {
                        assert(sorted@[t] == x);
                    } else {
                        assert(sorted@[t] == sorted_before[t - 1]);
                        lemma_exprs_model(sorted_before);
                    }
                }
                assert(exprs_model(sorted@) =~= sm.insert(pos as int, xm));
                done = done + 1;
            }
        }
        proof {
            assert(all.take(done) =~= all);
        }
        let r = Expression::Alternation(sorted);
        proof {
            assert(r@ == ExprModel::Alternation(sort_desc(all)));
        }
        r
    }
}

/// A well-formed single-codepoint node contributes a non-empty ordered
/// scalar set; a single-codepoint literal is one grapheme of one scalar.
pub proof fn lemma_single_charset(m: ExprModel, escape_non_ascii: bool)
    requires
        wf(m),
        single_codepoint(m, escape_non_ascii),
    ensures
        m matches ExprModel::Literal(s) ==> s.len() == 1 && s[0].chars.len() == 1,
        strictly_increasing(charset_of(m)),
        charset_of(m).len() >= 1,
    decreases m,
{
    match m {
        ExprModel::Literal(s) => {
            crate::grapheme::lemma_cluster_count_one(s, escape_non_ascii);
        },
        ExprModel::CharacterClass(_) => {},
        _ => {},
    }
}

impl Expression {
    /// Unites two optional trees: affix factoring first, then epsilon
    /// absorption, optional-repetition absorption, character-class
    /// merging, or a plain alternation, re-wrapped in the factored
    /// affixes: see `union_m`.
    pub fn union(a: &Option<Expression>, b: &Option<Expression>, config: &RegExpConfig) -> (r:
        Option<Expression>)
        requires
            opt_model(*a) matches Some(m) ==> wf(m),
            opt_model(*b) matches Some(m) ==> wf(m),
        ensures
            opt_model(r) == union_m(
                opt_model(*a),
                opt_model(*b),
                config.is_non_ascii_char_escaped,
            ),
    {
        let ghost esc = config.is_non_ascii_char_escaped;
        match (a, b) {
            (Some(e1), Some(e2)) => {
                let ghost x0 = e1@;
                let ghost y0 = e2@;
                let equal = e1 == e2;
                if !equal {
                    let mut expr1 = e1.clone();
                    let mut expr2 = e2.clone();
                    let common_prefix = Expression::remove_common_substring(
                        &mut expr1,
                        &mut expr2,
                        Substring::Prefix,
                    );
                    let ghost p = common_affix(x0, y0, Substring::Prefix);
                    let ghost x1 = expr1@;
                    let ghost y1 = expr2@;
                    proof {
                        lemma_affix_len_removable(x0, y0, Substring::Prefix);
                        if p.len() > 0 {
                            lemma_remove_wf(x0, Substring::Prefix, p.len());
                            lemma_remove_wf(y0, Substring::Prefix, p.len());
                        }
                        assert(wf(x1));
                        assert(wf(y1));
                    }
                    let common_suffix = Expression::remove_common_substring(
                        &mut expr1,
                        &mut expr2,
                        Substring::Suffix,
                    );
                    let ghost sfx = common_affix(x1, y1, Substring::Suffix);
                    let ghost x2 = expr1@;
                    let ghost y2 = expr2@;
                    proof {
                        lemma_affix_len_removable(x1, y1, Substring::Suffix);
                        if sfx.len() > 0 {
                            lemma_remove_wf(x1, Substring::Suffix, sfx.len());
                            lemma_remove_wf(y1, Substring::Suffix, sfx.len());
                        }
                        assert(wf(x2));
                        assert(wf(y2));
                    }
                    let mut result: Option<Expression> = if expr1.is_empty() {
                        Some(
                            Expression::new_repetition(
                                expr2.clone(),
                                Quantifier::QuestionMark,
                                config,
                            ),
                        )
                    } else if expr2.is_empty() {
                        Some(
                            Expression::new_repetition(
                                expr1.clone(),
                                Quantifier::QuestionMark,
                                config,
                            ),
                        )
                    } else {
                        None
                    };
                    if result.is_none() {
                        match &expr1 {
                            Expression::Repetition(inner, quantifier) => {
                                if matches!(quantifier, Quantifier::QuestionMark) {
                                    let alternation = Expression::new_alternation(
                                        (**inner).clone(),
                                        expr2.clone(),
                                        config,
                                    );
                                    result = Some(
                                        Expression::new_repetition(
                                            alternation,
                                            Quantifier::QuestionMark,
                                            config,
                                        ),
                                    );
                                }
                            },
                            _ => {},
                        }
                    }
                    if result.is_none() {
                        match &expr2 {
                            Expression::Repetition(inner, quantifier) => {
                                if matches!(quantifier, Quantifier::QuestionMark) {
                                    let alternation = Expression::new_alternation(
                                        expr1.clone(),
                                        (**inner).clone(),
                                        config,
                                    );
                                    result = Some(
                                        Expression::new_repetition(
                                            alternation,
                                            Quantifier::QuestionMark,
                                            config,
                                        ),
                                    );
                                }
                            },
                            _ => {},
                        }
                    }
                    if result.is_none() && expr1.is_single_codepoint(config)
                        && expr2.is_single_codepoint(config) {
                        proof {
                            lemma_single_charset(x2, esc);
                            lemma_single_charset(y2, esc);
                        }
                        let first_char_set = Expression::extract_character_set(expr1.clone());
                        let second_char_set = Expression::extract_character_set(expr2.clone());
                        result = Some(
                            Expression::new_character_class(
                                first_char_set,
                                second_char_set,
                                config,
                            ),
                        );
                    }
                    if result.is_none() {
                        result = Some(Expression::new_alternation(expr1, expr2, config));
                    }
                    proof {
                        assert(opt_model(result) == Some(union_core(x2, y2, esc)));
                    }
                    match common_prefix {
                        Some(prefix) => {
                            let ghost pv = Seq::new(prefix@.len(), |i: int| prefix@[i]@);
                            proof {
                                assert(pv == p);
                                assert(result is Some);
                            }
                            let inner_result = result.unwrap();
                            let literal = Expression::new_literal(
                                GraphemeCluster::from_graphemes(prefix),
                                config,
                            );
                            proof {
                                assert(literal@ == ExprModel::Literal(p));
                            }
                            result = Some(
                                Expression::new_concatenation(literal, inner_result, config),
                            );
                        },
                        None => {},
                    }
                    match common_suffix {
                        Some(suffix) => {
                            let ghost sv = Seq::new(suffix@.len(), |i: int| suffix@[i]@);
                            proof {
                                assert(sv == sfx);
                                assert(result is Some);
                            }
                            let inner_result = result.unwrap();
                            let literal = Expression::new_literal(
                                GraphemeCluster::from_graphemes(suffix),
                                config,
                            );
                            proof {
                                assert(literal@ == ExprModel::Literal(sfx));
                            }
                            result = Some(
                                Expression::new_concatenation(inner_result, literal, config),
                            );
                        },
                        None => {},
                    }
                    proof {
                        let core = union_core(x2, y2, esc);
                        let with_prefix = if p.len() == 0 {
                            core
                        } else {
                            ExprModel::Concatenation(
                                Box::new(ExprModel::Literal(p)),
                                Box::new(core),
                            )
                        };
                        let full = if sfx.len() == 0 {
                            with_prefix
                        } else {
                            ExprModel::Concatenation(
                                Box::new(with_prefix),
                                Box::new(ExprModel::Literal(sfx)),
                            )
                        };
                        assert(opt_model(result) == Some(full));
                        assert(x1 == (if p.len() == 0 {
                            x0
                        } else {
                            remove_model(x0, Substring::Prefix, p.len())
                        }));
                        assert(y1 == (if p.len() == 0 {
                            y0
                        } else {
                            remove_model(y0, Substring::Prefix, p.len())
                        }));
                        assert(union_m(opt_model(*a), opt_model(*b), esc) == Some(full));
                    }
                    result
                } else {
                    let r = Some(e1.clone());
                    proof {
                        assert(x0 == y0);
                        assert(opt_model(r) == union_m(opt_model(*a), opt_model(*b), esc));
                    }
                    r
                }
            },
            (Some(e1), None) => Some(e1.clone()),
            (None, Some(e2)) => Some(e2.clone()),
            (None, None) => None,
        }
    }
}

/// The common affix can be drained from both trees.
pub proof fn lemma_affix_len_removable(x: ExprModel, y: ExprModel, substring: Substring)
    ensures
        removable(x, substring, common_affix(x, y, substring).len()),
        removable(y, substring, common_affix(x, y, substring).len()),
{
    let c = common_affix(x, y, substring);
    match substring {
        Substring::Prefix => {
            lemma_lcp_basic(exposed(x, substring), exposed(y, substring));
        },
        Substring::Suffix => {
            lemma_lcp_basic(
                exposed(x, substring).reverse(),
                exposed(y, substring).reverse(),
            );
            assert(c.len() <= exposed(x, substring).len());
            assert(c.len() <= exposed(y, substring).len());
        },
    }
    lemma_affix_removable(x, substring, c.len());
    lemma_affix_removable(y, substring, c.len());
}

} // verus!
