//! Invariant preservation: every combinator keeps trees well-formed,
//! and a well-formed tree has flat alternations, ordered alternation
//! children, non-degenerate character classes and merged concatenation
//! spines.

use vstd::prelude::*;

use crate::ast::{
    alternation_of, charset_of, clamped_len, common_affix, concat_m, exposed, flatten_m,
    insert_desc, is_epsilon, lcp, merge_sets, remove_model, removable, single_codepoint,
    sort_desc, sorted_desc, spine_ok, star_m, strictly_increasing, union_core, union_m, value_of,
    wf, ExprModel, Quantifier, Substring,
};
use crate::grapheme::{cluster_ok, GraphemeModel};
use crate::ops::{
    lemma_affix_len_removable, lemma_flatten_elems, lemma_lcp_basic, lemma_remove_wf,
    lemma_single_charset, lemma_sort_desc_elems,
};

verus! {

/// Merging two ordered scalar sets gives an ordered set at least as
/// large as either, whose first scalar heads one of the inputs.
pub proof fn lemma_merge_props(a: Seq<char>, b: Seq<char>)
    requires
        strictly_increasing(a),
        strictly_increasing(b),
    ensures
        strictly_increasing(merge_sets(a, b)),
        merge_sets(a, b).len() >= a.len(),
        merge_sets(a, b).len() >= b.len(),
        merge_sets(a, b).len() > 0 ==> (a.len() > 0 && merge_sets(a, b)[0] == a[0]) || (b.len()
            > 0 && merge_sets(a, b)[0] == b[0]),
    decreases a.len() + b.len(),
{
    if a.len() == 0 || b.len() == 0 {
    } else {
        assert(strictly_increasing(a.drop_first()));
        assert(strictly_increasing(b.drop_first()));
        let m = merge_sets(a, b);
        if (a[0] as u32) < (b[0] as u32) {
            lemma_merge_props(a.drop_first(), b);
            let rest = merge_sets(a.drop_first(), b);
            assert(m == seq![a[0]] + rest);
            assert forall|i: int, j: int|
                #![trigger m[i], m[j]]
                0 <= i < j < m.len() implies (m[i] as u32) < (m[j] as u32) by {
                if i > 0 {
                    assert(m[i] == rest[i - 1]);
                    assert(m[j] == rest[j - 1]);
                } else {
                    assert(m[j] == rest[j - 1]);
                    if rest.len() > 0 {
                        if a.drop_first().len() > 0 && rest[0] == a.drop_first()[0] {
                            assert((a[0] as u32) < (rest[0] as u32));
                        } else {
                            assert((a[0] as u32) < (rest[0] as u32));
                        }
                    }
                    if j - 1 > 0 {
                        assert((rest[0] as u32) < (rest[j - 1] as u32));
                    }
                }
            }
        } else if (b[0] as u32) < (a[0] as u32) {
            lemma_merge_props(a, b.drop_first());
            let rest = merge_sets(a, b.drop_first());
            assert(m == seq![b[0]] + rest);
            assert forall|i: int, j: int|
                #![trigger m[i], m[j]]
                0 <= i < j < m.len() implies (m[i] as u32) < (m[j] as u32) by {
                if i > 0 {
                    assert(m[i] == rest[i - 1]);
                    assert(m[j] == rest[j - 1]);
                } else {
                    assert(m[j] == rest[j - 1]);
                    if rest.len() > 0 {
                        assert((b[0] as u32) < (rest[0] as u32));
                    }
                    if j - 1 > 0 {
                        assert((rest[0] as u32) < (rest[j - 1] as u32));
                    }
                }
            }
        } else {
            lemma_merge_props(a.drop_first(), b.drop_first());
            let rest = merge_sets(a.drop_first(), b.drop_first());
            assert(m == seq![a[0]] + rest);
            assert forall|i: int, j: int|
                #![trigger m[i], m[j]]
                0 <= i < j < m.len() implies (m[i] as u32) < (m[j] as u32) by {
                if i > 0 {
                    assert(m[i] == rest[i - 1]);
                    assert(m[j] == rest[j - 1]);
                } else {
                    assert(m[j] == rest[j - 1]);
                    if rest.len() > 0 {
                        assert((a[0] as u32) < (rest[0] as u32));
                    }
                    if j - 1 > 0 {
                        assert((rest[0] as u32) < (rest[j - 1] as u32));
                    }
                }
            }
        }
    }
}

/// Inserting into a list sorted by non-increasing length keeps it
/// sorted, and adds nothing longer than the longest of the new element
/// and the old head.
pub proof fn lemma_insert_desc_sorted(x: ExprModel, s: Seq<ExprModel>)
    requires
        sorted_desc(s),
    ensures
        sorted_desc(insert_desc(x, s)),
        insert_desc(x, s).len() == s.len() + 1,
        forall|k: int|
            0 <= k < insert_desc(x, s).len() ==> clamped_len(#[trigger] insert_desc(x, s)[k])
                <= clamped_len(x) || (s.len() > 0 && clamped_len(insert_desc(x, s)[k])
                <= clamped_len(s[0])),
    decreases s.len(),
{
    let r = insert_desc(x, s);
    if s.len() == 0 {
        assert(r == seq![x]);
    } else if clamped_len(x) > clamped_len(s[0]) {
        assert(r == seq![x] + s);
        assert forall|i: int, j: int|
            0 <= i < j < r.len() implies clamped_len(#[trigger] r[i]) >= clamped_len(
            #[trigger] r[j],
        ) by {
            if i > 0 {
                assert(r[i] == s[i - 1]);
                assert(r[j] == s[j - 1]);
            } else {
                assert(r[j] == s[j - 1]);
                if j - 1 > 0 {
                    assert(clamped_len(s[0]) >= clamped_len(s[j - 1]));
                }
            }
        }
    } else {
        assert(sorted_desc(s.drop_first()));
        lemma_insert_desc_sorted(x, s.drop_first());
        let rest = insert_desc(x, s.drop_first());
        assert(r == seq![s[0]] + rest);
        assert forall|i: int, j: int|
            0 <= i < j < r.len() implies clamped_len(#[trigger] r[i]) >= clamped_len(
            #[trigger] r[j],
        ) by {
            if i > 0 {
                assert(r[i] == rest[i - 1]);
                assert(r[j] == rest[j - 1]);
            } else {
                assert(r[j] == rest[j - 1]);
                assert(clamped_len(rest[j - 1]) <= clamped_len(x) || (s.drop_first().len() > 0
                    && clamped_len(rest[j - 1]) <= clamped_len(s.drop_first()[0])));
                if s.drop_first().len() > 0 {
                    assert(clamped_len(s[0]) >= clamped_len(s.drop_first()[0]));
                }
            }
        }
        assert forall|k: int|
            0 <= k < r.len() implies clamped_len(#[trigger] r[k]) <= clamped_len(x) || (s.len()
            > 0 && clamped_len(r[k]) <= clamped_len(s[0])) by {
            if k > 0 {
                assert(r[k] == rest[k - 1]);
                if s.drop_first().len() > 0 {
                    assert(clamped_len(s[0]) >= clamped_len(s.drop_first()[0]));
                }
            }
        }
    }
}

/// A stable sort by non-increasing length leaves the list sorted.
pub proof fn lemma_sort_desc_sorted(s: Seq<ExprModel>)
    ensures
        sorted_desc(sort_desc(s)),
    decreases s.len(),
{
    if s.len() > 0 {
        lemma_sort_desc_sorted(s.drop_last());
        lemma_insert_desc_sorted(s.last(), sort_desc(s.drop_last()));
    }
}

/// The alternation constructor yields a well-formed alternation from two
/// well-formed trees.
pub proof fn lemma_alternation_wf(a: ExprModel, b: ExprModel)
    requires
        wf(a),
        wf(b),
    ensures
        wf(alternation_of(a, b)),
        alternation_of(a, b) is Alternation,
{
    let pair = seq![a, b];
    assert forall|i: int| 0 <= i < pair.len() implies wf(#[trigger] pair[i]) by {
        assert(pair[0] == a);
        assert(pair[1] == b);
    }
    lemma_flatten_elems(pair);
    let flat = flatten_m(pair);
    lemma_sort_desc_elems(flat);
    lemma_sort_desc_sorted(flat);
    assert(flat.len() >= 2);
}

/// What a well-formed tree exposes at either end is a run of
/// well-formed graphemes.
pub proof fn lemma_exposed_ok(m: ExprModel, substring: Substring)
    requires
        wf(m),
    ensures
        cluster_ok(exposed(m, substring)),
{
    match m {
        ExprModel::Concatenation(left, right) => {
            match substring {
                Substring::Prefix => {
                    assert(value_of(m, Some(substring)) == value_of(*left, None));
                    match *left {
                        ExprModel::Literal(s) => {
                            assert(wf(*left));
                            assert(cluster_ok(s));
                            assert(exposed(m, substring) == s);
                        },
                        _ => {
                            assert(exposed(m, substring) =~= Seq::<GraphemeModel>::empty());
                        },
                    }
                },
                Substring::Suffix => {
                    assert(value_of(m, Some(substring)) == value_of(*right, None));
                    match *right {
                        ExprModel::Literal(s) => {
                            assert(wf(*right));
                            assert(cluster_ok(s));
                            assert(exposed(m, substring) == s);
                        },
                        _ => {
                            assert(exposed(m, substring) =~= Seq::<GraphemeModel>::empty());
                        },
                    }
                },
            }
        },
        ExprModel::Literal(s) => {
            assert(exposed(m, substring) == s);
        },
        _ => {
            assert(exposed(m, substring) =~= Seq::<GraphemeModel>::empty());
        },
    }
}

/// A common affix is made of well-formed graphemes.
pub proof fn lemma_affix_ok(x: ExprModel, y: ExprModel, substring: Substring)
    requires
        wf(x),
        wf(y),
    ensures
        cluster_ok(common_affix(x, y, substring)),
{
    lemma_exposed_ok(x, substring);
    let c = common_affix(x, y, substring);
    match substring {
        Substring::Prefix => {
            let e = exposed(x, substring);
            lemma_lcp_basic(e, exposed(y, substring));
            assert forall|i: int| 0 <= i < c.len() implies crate::grapheme::grapheme_ok(
                #[trigger] c[i],
            ) by {
                assert(c[i] == e.subrange(0, c.len() as int)[i]);
                assert(c[i] == e[i]);
            }
        },
        Substring::Suffix => {
            let e = exposed(x, substring);
            lemma_lcp_basic(e.reverse(), exposed(y, substring).reverse());
            let l = lcp(e.reverse(), exposed(y, substring).reverse());
            assert forall|i: int| 0 <= i < c.len() implies crate::grapheme::grapheme_ok(
                #[trigger] c[i],
            ) by {
                assert(c[i] == l[l.len() - 1 - i]);
                assert(l[l.len() - 1 - i] == e.reverse().subrange(0, l.len() as int)[l.len() - 1
                    - i]);
                assert(l[l.len() - 1 - i] == e.reverse()[l.len() - 1 - i]);
                assert(e.reverse()[l.len() - 1 - i] == e[e.len() - l.len() + i]);
            }
        },
    }
}

/// Affix removal keeps the shape of a tree: each variant maps to itself.
pub proof fn lemma_remove_same_shape(m: ExprModel, substring: Substring, n: nat)
    ensures
        remove_model(m, substring, n) is Literal <==> m is Literal,
        remove_model(m, substring, n) is Concatenation <==> m is Concatenation,
        remove_model(m, substring, n) is Repetition <==> m is Repetition,
        remove_model(m, substring, n) is CharacterClass <==> m is CharacterClass,
        remove_model(m, substring, n) is Alternation <==> m is Alternation,
{
}

/// `concatenate` yields a well-formed tree from well-formed operands.
pub proof fn lemma_concat_wf(a: Option<ExprModel>, b: Option<ExprModel>)
    requires
        a matches Some(m) ==> wf(m),
        b matches Some(m) ==> wf(m),
    ensures
        concat_m(a, b) matches Some(m) ==> wf(m),
{
    match (a, b) {
        (Some(x), Some(y)) => {
            if is_epsilon(x) || is_epsilon(y) {
            } else {
                let general = ExprModel::Concatenation(Box::new(x), Box::new(y));
                match x {
                    ExprModel::Literal(ga) => match y {
                        ExprModel::Literal(gb) => {
                            lemma_cluster_ok_add(ga, gb);
                        },
                        ExprModel::Concatenation(first, second) => match *first {
                            ExprModel::Literal(gf) => {
                                assert(wf(*first));
                                lemma_cluster_ok_add(ga, gf);
                                assert(wf(*second));
                                assert(spine_ok(*first, *second));
                                let merged = ExprModel::Literal(ga + gf);
                                assert(wf(merged));
                                assert(spine_ok(merged, *second));
                                assert(wf(ExprModel::Concatenation(
                                    Box::new(merged),
                                    second,
                                )));
                            },
                            _ => {
                                assert(spine_ok(x, y));
                                assert(wf(general));
                            },
                        },
                        _ => {
                            assert(spine_ok(x, y));
                            assert(wf(general));
                        },
                    },
                    ExprModel::Concatenation(first, second) => match y {
                        ExprModel::Literal(gb) => match *second {
                            ExprModel::Literal(gs) => {
                                assert(wf(*second));
                                lemma_cluster_ok_add(gs, gb);
                                assert(wf(*first));
                                assert(spine_ok(*first, *second));
                                let merged = ExprModel::Literal(gs + gb);
                                assert(wf(merged));
                                assert(spine_ok(*first, merged));
                                assert(wf(ExprModel::Concatenation(
                                    first,
                                    Box::new(merged),
                                )));
                            },
                            _ => {
                                assert(spine_ok(x, y));
                                assert(wf(general));
                            },
                        },
                        _ => {
                            assert(spine_ok(x, y));
                            assert(wf(general));
                        },
                    },
                    _ => {
                        assert(spine_ok(x, y));
                        assert(wf(general));
                    },
                }
            }
        },
        _ => {},
    }
}

/// Concatenating two runs of well-formed graphemes gives one.
pub proof fn lemma_cluster_ok_add(x: Seq<GraphemeModel>, y: Seq<GraphemeModel>)
    requires
        cluster_ok(x),
        cluster_ok(y),
    ensures
        cluster_ok(x + y),
{
    assert forall|i: int| 0 <= i < (x + y).len() implies crate::grapheme::grapheme_ok(
        #[trigger] (x + y)[i],
    ) by {
        if i < x.len() {
            assert((x + y)[i] == x[i]);
        } else {
            assert((x + y)[i] == y[i - x.len()]);
        }
    }
}

/// A repetition of a well-formed operand is well-formed.
pub proof fn lemma_star_wf(a: Option<ExprModel>)
    requires
        a matches Some(m) ==> wf(m),
    ensures
        star_m(a) matches Some(m) ==> wf(m),
{
}

/// Two unequal single-codepoint literals left by affix factoring carry
/// distinct scalars, so the class built from them has two members.
proof fn lemma_union_literal_scalars(x: ExprModel, y: ExprModel, escape_non_ascii: bool)
    requires
        wf(x),
        wf(y),
        x != y,
        x is Literal,
        y is Literal,
        single_codepoint(x, escape_non_ascii),
        single_codepoint(y, escape_non_ascii),
    ensures
        charset_of(x)[0] != charset_of(y)[0],
{
    lemma_single_charset(x, escape_non_ascii);
    lemma_single_charset(y, escape_non_ascii);
    let s1 = x->Literal_0;
    let s2 = y->Literal_0;
    let c1 = s1[0].chars[0];
    let c2 = s2[0].chars[0];
    if c1 == c2 {
        assert(s1[0].chars =~= s2[0].chars);
        assert(1 <= s1[0].min <= s1[0].max);
        assert(s1[0].max == 1);
        assert(s2[0].max == 1);
        assert(s1[0].min == 1 && s2[0].min == 1);
        assert(s1[0] == s2[0]);
        assert(s1 =~= s2);
        assert(x == y);
    }
}

/// The factored core of `union` is well-formed and is never a literal
/// or a concatenation.
proof fn lemma_union_core_wf(x: ExprModel, y: ExprModel, escape_non_ascii: bool)
    requires
        wf(x),
        wf(y),
        x == y ==> !(x is Literal && single_codepoint(x, escape_non_ascii)),
    ensures
        wf(union_core(x, y, escape_non_ascii)),
        !(union_core(x, y, escape_non_ascii) is Literal),
        !(union_core(x, y, escape_non_ascii) is Concatenation),
{
    if is_epsilon(x) || is_epsilon(y) {
    } else {
        match x {
            ExprModel::Repetition(xi, Quantifier::QuestionMark) => {
                lemma_alternation_wf(*xi, y);
            },
            _ => {
                match y {
                    ExprModel::Repetition(yi, Quantifier::QuestionMark) => {
                        lemma_alternation_wf(x, *yi);
                    },
                    _ => {
                        if single_codepoint(x, escape_non_ascii) && single_codepoint(
                            y,
                            escape_non_ascii,
                        ) {
                            lemma_single_charset(x, escape_non_ascii);
                            lemma_single_charset(y, escape_non_ascii);
                            lemma_merge_props(charset_of(x), charset_of(y));
                            let merged = merge_sets(charset_of(x), charset_of(y));
                            if x is CharacterClass || y is CharacterClass {
                                assert(merged.len() >= 2);
                            } else {
                                assert(x != y);
                                lemma_union_literal_scalars(x, y, escape_non_ascii);
                                let c1 = charset_of(x)[0];
                                let c2 = charset_of(y)[0];
                                assert(charset_of(x) =~= seq![c1]);
                                assert(charset_of(y) =~= seq![c2]);
                                if c1 as u32 == c2 as u32 {
                                    crate::ast::lemma_char_eq(c1, c2);
                                }
                                assert(merged.len() == 2) by {
                                    if (c1 as u32) < (c2 as u32) {
                                        assert(merged == seq![c1] + merge_sets(
                                            seq![c1].drop_first(),
                                            seq![c2],
                                        ));
                                        assert(seq![c1].drop_first().len() == 0);
                                    } else {
                                        assert(merged == seq![c2] + merge_sets(
                                            seq![c1],
                                            seq![c2].drop_first(),
                                        ));
                                        assert(seq![c2].drop_first().len() == 0);
                                    }
                                }
                            }
                        } else {
                            lemma_alternation_wf(x, y);
                        }
                    },
                }
            },
        }
    }
}

/// `union` yields a well-formed tree from well-formed operands.
pub proof fn lemma_union_wf(a: Option<ExprModel>, b: Option<ExprModel>, escape_non_ascii: bool)
    requires
        a matches Some(m) ==> wf(m),
        b matches Some(m) ==> wf(m),
    ensures
        union_m(a, b, escape_non_ascii) matches Some(m) ==> wf(m),
{
    match (a, b) {
        (Some(x0), Some(y0)) => {
            if x0 == y0 {
            } else {
                let p = common_affix(x0, y0, Substring::Prefix);
                let x1 = if p.len() == 0 {
                    x0
                } else {
                    remove_model(x0, Substring::Prefix, p.len())
                };
                let y1 = if p.len() == 0 {
                    y0
                } else {
                    remove_model(y0, Substring::Prefix, p.len())
                };
                lemma_affix_len_removable(x0, y0, Substring::Prefix);
                if p.len() > 0 {
                    lemma_remove_wf(x0, Substring::Prefix, p.len());
                    lemma_remove_wf(y0, Substring::Prefix, p.len());
                }
                let s = common_affix(x1, y1, Substring::Suffix);
                let x2 = if s.len() == 0 {
                    x1
                } else {
                    remove_model(x1, Substring::Suffix, s.len())
                };
                let y2 = if s.len() == 0 {
                    y1
                } else {
                    remove_model(y1, Substring::Suffix, s.len())
                };
                lemma_affix_len_removable(x1, y1, Substring::Suffix);
                if s.len() > 0 {
                    lemma_remove_wf(x1, Substring::Suffix, s.len());
                    lemma_remove_wf(y1, Substring::Suffix, s.len());
                }
                if x2 == y2 && x2 is Literal && single_codepoint(x2, escape_non_ascii) {
                    lemma_remove_same_shape(x0, Substring::Prefix, p.len());
                    lemma_remove_same_shape(y0, Substring::Prefix, p.len());
                    lemma_remove_same_shape(x1, Substring::Suffix, s.len());
                    lemma_remove_same_shape(y1, Substring::Suffix, s.len());
                    assert(x0 is Literal && y0 is Literal);
                    lemma_literal_factoring_keeps_unequal(x0, y0);
                    assert(false);
                }
                lemma_union_core_wf(x2, y2, escape_non_ascii);
                let core = union_core(x2, y2, escape_non_ascii);
                assert(wf(core));
                lemma_affix_ok(x0, y0, Substring::Prefix);
                lemma_affix_ok(x1, y1, Substring::Suffix);
                assert(cluster_ok(p));
                assert(cluster_ok(s));
                let with_prefix = if p.len() == 0 {
                    core
                } else {
                    ExprModel::Concatenation(Box::new(ExprModel::Literal(p)), Box::new(core))
                };
                if p.len() > 0 {
                    assert(wf(ExprModel::Literal(p)));
                    assert(spine_ok(ExprModel::Literal(p), core));
                }
                assert(wf(with_prefix));
                let full = if s.len() == 0 {
                    with_prefix
                } else {
                    ExprModel::Concatenation(
                        Box::new(with_prefix),
                        Box::new(ExprModel::Literal(s)),
                    )
                };
                if s.len() > 0 {
                    assert(wf(ExprModel::Literal(s)));
                    assert(!(core is Literal) && !(core is Concatenation));
                    assert(spine_ok(with_prefix, ExprModel::Literal(s)));
                }
                assert(wf(full));
                assert(union_m(a, b, escape_non_ascii) == Some(full));
            }
        },
        _ => {},
    }
}

/// Factoring the common prefix and suffix away from two unequal
/// literals leaves two unequal literals: what was removed is common to
/// both, so equal remainders would force the originals to be equal.
proof fn lemma_literal_factoring_keeps_unequal(x0: ExprModel, y0: ExprModel)
    requires
        x0 != y0,
        x0 is Literal,
        y0 is Literal,
    ensures
        ({
            let p = common_affix(x0, y0, Substring::Prefix);
            let x1 = if p.len() == 0 {
                x0
            } else {
                remove_model(x0, Substring::Prefix, p.len())
            };
            let y1 = if p.len() == 0 {
                y0
            } else {
                remove_model(y0, Substring::Prefix, p.len())
            };
            let s = common_affix(x1, y1, Substring::Suffix);
            let x2 = if s.len() == 0 {
                x1
            } else {
                remove_model(x1, Substring::Suffix, s.len())
            };
            let y2 = if s.len() == 0 {
                y1
            } else {
                remove_model(y1, Substring::Suffix, s.len())
            };
            x2 != y2
        }),
{
    let g1 = x0->Literal_0;
    let g2 = y0->Literal_0;
    assert(g1 != g2);
    assert(exposed(x0, Substring::Prefix) == g1);
    assert(exposed(y0, Substring::Prefix) == g2);
    let p = common_affix(x0, y0, Substring::Prefix);
    let pl = p.len() as int;
    lemma_lcp_basic(g1, g2);
    let x1 = if p.len() == 0 {
        x0
    } else {
        remove_model(x0, Substring::Prefix, p.len())
    };
    let y1 = if p.len() == 0 {
        y0
    } else {
        remove_model(y0, Substring::Prefix, p.len())
    };
    let g1p = x1->Literal_0;
    let g2p = y1->Literal_0;
    assert(g1p =~= g1.skip(pl));
    assert(g2p =~= g2.skip(pl));
    let s = common_affix(x1, y1, Substring::Suffix);
    let sl = s.len() as int;
    assert(exposed(x1, Substring::Suffix) == g1p);
    assert(exposed(y1, Substring::Suffix) == g2p);
    let r1 = g1p.reverse();
    let r2 = g2p.reverse();
    lemma_lcp_basic(r1, r2);
    assert(sl == lcp(r1, r2).len());
    let x2 = if s.len() == 0 {
        x1
    } else {
        remove_model(x1, Substring::Suffix, s.len())
    };
    let y2 = if s.len() == 0 {
        y1
    } else {
        remove_model(y1, Substring::Suffix, s.len())
    };
    let g1s = x2->Literal_0;
    let g2s = y2->Literal_0;
    assert(g1s =~= g1p.take(g1p.len() - sl));
    assert(g2s =~= g2p.take(g2p.len() - sl));
    if x2 == y2 {
        assert(g1s == g2s);
        let big = g1s.len() as int;
        assert(g1p.len() == big + sl);
        assert(g2p.len() == big + sl);
        assert(g1.len() == pl + big + sl);
        assert(g2.len() == pl + big + sl);
        if pl == g1.len() {
            assert(g1 =~= g1.subrange(0, pl));
            assert(g2 =~= g2.subrange(0, pl));
            assert(g1 =~= g2);
        } else {
            assert(pl < g1.len() && pl < g2.len());
            assert(g1[pl] != g2[pl]);
            if big > 0 {
                assert(g1s[0] == g1p[0]);
                assert(g2s[0] == g2p[0]);
                assert(g1p[0] == g1[pl]);
                assert(g2p[0] == g2[pl]);
            } else {
                if sl > 0 {
                    assert(lcp(r1, r2) == r1.subrange(0, sl));
                    assert(lcp(r1, r2) == r2.subrange(0, sl));
                    assert(r1.subrange(0, sl)[sl - 1] == r2.subrange(0, sl)[sl - 1]);
                    assert(r1[sl - 1] == g1p[g1p.len() - 1 - (sl - 1)]);
                    assert(r2[sl - 1] == g2p[g2p.len() - 1 - (sl - 1)]);
                    assert(g1p[0] == g1[pl]);
                    assert(g2p[0] == g2[pl]);
                } else {
                    assert(g1p.len() == 0);
                }
            }
        }
    }
}


/// No alternation anywhere in the tree has an alternation child.
pub open spec fn alternations_flat(m: ExprModel) -> bool
    decreases m,
{
    match m {
        ExprModel::Alternation(options) => forall|i: int|
            0 <= i < options.len() ==> !((#[trigger] options[i]) is Alternation)
                && alternations_flat(options[i]),
        ExprModel::Concatenation(left, right) => alternations_flat(*left) && alternations_flat(
            *right,
        ),
        ExprModel::Repetition(inner, _) => alternations_flat(*inner),
        _ => true,
    }
}

/// The children of every alternation in the tree are sorted by
/// non-increasing reported length.
pub open spec fn alternations_ordered(m: ExprModel) -> bool
    decreases m,
{
    match m {
        ExprModel::Alternation(options) => sorted_desc(options) && forall|i: int|
            0 <= i < options.len() ==> alternations_ordered(#[trigger] options[i]),
        ExprModel::Concatenation(left, right) => alternations_ordered(*left)
            && alternations_ordered(*right),
        ExprModel::Repetition(inner, _) => alternations_ordered(*inner),
        _ => true,
    }
}

/// Every character class in the tree holds at least two distinct
/// scalars, in increasing order.
pub open spec fn classes_nontrivial(m: ExprModel) -> bool
    decreases m,
{
    match m {
        ExprModel::CharacterClass(cs) => cs.len() >= 2 && strictly_increasing(cs),
        ExprModel::Alternation(options) => forall|i: int|
            0 <= i < options.len() ==> classes_nontrivial(#[trigger] options[i]),
        ExprModel::Concatenation(left, right) => classes_nontrivial(*left)
            && classes_nontrivial(*right),
        ExprModel::Repetition(inner, _) => classes_nontrivial(*inner),
        _ => true,
    }
}

/// No concatenation in the tree pairs a literal with an immediate
/// literal on the inner side of a neighbouring concatenation.
pub open spec fn spines_merged(m: ExprModel) -> bool
    decreases m,
{
    match m {
        ExprModel::Concatenation(left, right) => spine_ok(*left, *right) && spines_merged(*left)
            && spines_merged(*right),
        ExprModel::Alternation(options) => forall|i: int|
            0 <= i < options.len() ==> spines_merged(#[trigger] options[i]),
        ExprModel::Repetition(inner, _) => spines_merged(*inner),
        _ => true,
    }
}

/// A well-formed tree — in particular any tree the synthesis produces —
/// has flat alternations, ordered alternation children, non-degenerate
/// character classes and merged concatenation spines.
pub proof fn lemma_wf_shape(m: ExprModel)
    requires
        wf(m),
    ensures
        alternations_flat(m),
        alternations_ordered(m),
        classes_nontrivial(m),
        spines_merged(m),
    decreases m,
{
    match m {
        ExprModel::Alternation(options) => {
            assert forall|i: int|
                0 <= i < options.len() implies !((#[trigger] options[i]) is Alternation)
                && alternations_flat(options[i]) && alternations_ordered(options[i])
                && classes_nontrivial(options[i]) && spines_merged(options[i]) by {
                assert(wf(options[i]));
                lemma_wf_shape(options[i]);
            }
        },
        ExprModel::Concatenation(left, right) => {
            lemma_wf_shape(*left);
            lemma_wf_shape(*right);
        },
        ExprModel::Repetition(inner, _) => {
            lemma_wf_shape(*inner);
        },
        _ => {},
    }
}

/// Draining a prefix from a concatenation whose left side is a literal
/// trims only that literal: the right side comes through untouched.
pub proof fn lemma_remove_prefix_touches_left_only(left: ExprModel, right: ExprModel, n: nat)
    requires
        left is Literal,
    ensures
        remove_model(
            ExprModel::Concatenation(Box::new(left), Box::new(right)),
            Substring::Prefix,
            n,
        ) == ExprModel::Concatenation(
            Box::new(remove_model(left, Substring::Prefix, n)),
            Box::new(right),
        ),
{
}

/// On a shape with no reachable literal the drain is a no-op.
pub proof fn lemma_remove_noop(m: ExprModel, substring: Substring, n: nat)
    requires
        !(m is Literal),
        !(m is Concatenation),
    ensures
        remove_model(m, substring, n) == m,
{
}

} // verus!