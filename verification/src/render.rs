//! Bracket text of a character class: the scalars of the set between
//! `[` and `]`, with every run of three or more consecutive scalars
//! compressed into a range.

use vstd::prelude::*;

use crate::ast::{ExprModel, Expression};

verus! {

/// Scalars do not exceed the largest Unicode scalar value.
pub proof fn lemma_char_bound(c: char)
    ensures
        c as u32 <= 0x10FFFF,
{
}

/// The length of the maximal run of consecutive scalars at the head of
/// the sequence.
pub open spec fn run_len(cs: Seq<char>) -> nat
    decreases cs.len(),
{
    if cs.len() <= 1 {
        cs.len()
    } else if cs[1] as u32 == cs[0] as u32 + 1 {
        1 + run_len(cs.drop_first())
    } else {
        1
    }
}

/// The head run is never empty and never longer than the sequence.
pub proof fn lemma_run_len_bounds(cs: Seq<char>)
    requires
        cs.len() > 0,
    ensures
        1 <= run_len(cs) <= cs.len(),
    decreases cs.len(),
{
    if cs.len() > 1 && cs[1] as u32 == cs[0] as u32 + 1 {
        lemma_run_len_bounds(cs.drop_first());
    }
}

/// The body of the bracket text: each maximal run of one or two
/// scalars is written out, a longer run becomes `first-last`.
pub open spec fn runs_text(cs: Seq<char>) -> Seq<char>
    decreases cs.len(),
    via runs_text_decreases
{
    if cs.len() == 0 {
        Seq::empty()
    } else {
        let rl = run_len(cs) as int;
        if rl == 1 {
            seq![cs[0]] + runs_text(cs.skip(1))
        } else if rl == 2 {
            seq![cs[0], cs[1]] + runs_text(cs.skip(2))
        } else {
            seq![cs[0], '-', cs[rl - 1]] + runs_text(cs.skip(rl))
        }
    }
}

#[via_fn]
proof fn runs_text_decreases(cs: Seq<char>) {
    if cs.len() > 0 {
        lemma_run_len_bounds(cs);
    }
}

/// The whole bracket text of a scalar set.
pub open spec fn class_text_of(cs: Seq<char>) -> Seq<char> {
    seq!['['] + runs_text(cs) + seq![']']
}

/// A counted run that ends at a mismatch or at the end of the sequence
/// is the maximal head run.
proof fn lemma_run_len_characterize(cs: Seq<char>, k: int)
    requires
        1 <= k <= cs.len(),
        forall|t: int| 1 <= t < k ==> #[trigger] (cs[t] as u32) == cs[t - 1] as u32 + 1,
        k < cs.len() ==> cs[k] as u32 != cs[k - 1] as u32 + 1,
    ensures
        run_len(cs) == k,
    decreases k,
{
    if k == 1 {
        if cs.len() > 1 {
            assert(cs[1] as u32 != cs[0] as u32 + 1);
        }
    } else {
        assert(cs[1] as u32 == cs[0] as u32 + 1);
        let d = cs.drop_first();
        assert forall|t: int| 1 <= t < k - 1 implies #[trigger] (d[t] as u32) == d[t - 1] as u32
            + 1 by {
            assert(d[t] == cs[t + 1]);
            assert(d[t - 1] == cs[t]);
        }
        if k - 1 < d.len() {
            assert(d[k - 1] == cs[k]);
            assert(d[k - 2] == cs[k - 1]);
        }
        lemma_run_len_characterize(d, k - 1);
    }
}

/// Whether `b` is the scalar right after `a`.
fn consecutive(a: char, b: char) -> (r: bool)
    ensures
        r == (b as u32 == a as u32 + 1),
{
    proof {
        lemma_char_bound(a);
    }
    (b as u32) == (a as u32) + 1
}

impl Expression {
    /// The bracket text of this character class, runs of three or more
    /// consecutive scalars compressed into ranges.
    pub fn class_text(&self) -> (r: Vec<char>)
        requires
            self@ is CharacterClass,
        ensures
            r@ == class_text_of(self@->CharacterClass_0),
    {
        match self {
            Expression::CharacterClass(chars) => {
                let ghost all = chars@;
                let mut out: Vec<char> = Vec::new();
                out.push('[');
                proof {
                    assert(all.skip(0) =~= all);
                    assert(out@ =~= seq!['[']);
                }
                let mut i: usize = 0;
                while i < chars.len()
                    invariant
                        i <= chars@.len(),
                        all == chars@,
                        seq!['['] + runs_text(all) == out@ + runs_text(all.skip(i as int)),
                    decreases chars@.len() - i,
                {
                    let ghost rem = all.skip(i as int);
                    let ghost out0 = out@;
                    let start = i;
                    let mut e = i + 1;
                    while e < chars.len() && consecutive(chars[e - 1], chars[e])
                        invariant
                            all == chars@,
                            start < e <= chars@.len() + 1,
                            start < chars@.len(),
                            e <= chars@.len() || e == start + 1,
                            e <= chars@.len(),
                            forall|t: int|
                                start < t < e ==> #[trigger] (all[t] as u32) == all[t - 1] as u32
                                    + 1,
                        decreases chars@.len() - e,
                    {
                        e += 1;
                    }
                    proof {
                        assert(rem.len() == all.len() - i);
                        assert forall|t: int|
                            1 <= t < e - start implies #[trigger] (rem[t] as u32) == rem[t
                            - 1] as u32 + 1 by {
                            assert(rem[t] == all[i + t]);
                            assert(rem[t - 1] == all[i + t - 1]);
                        }
                        if e - start < rem.len() {
                            assert(rem[e - start] == all[e as int]);
                            assert(rem[e - start - 1] == all[e - 1]);
                        }
                        lemma_run_len_characterize(rem, e - start);
                        assert(run_len(rem) == e - start);
                    }
                    if e - start == 1 {
                        out.push(chars[start]);
                        proof {
                            assert(rem[0] == all[i as int]);
                            assert(rem.skip(1) =~= all.skip(e as int));
                            assert(runs_text(rem) == seq![rem[0]] + runs_text(rem.skip(1)));
                            assert(out@ =~= out0 + seq![all[i as int]]);
                            assert(out0 + runs_text(rem) =~= out@ + runs_text(
                                all.skip(e as int),
                            ));
                        }
                    } else if e - start == 2 {
                        out.push(chars[start]);
                        out.push(chars[e - 1]);
                        proof {
                            assert(rem[0] == all[i as int]);
                            assert(rem[1] == all[i + 1]);
                            assert(rem.skip(2) =~= all.skip(e as int));
                            assert(runs_text(rem) == seq![rem[0], rem[1]] + runs_text(
                                rem.skip(2),
                            ));
                            assert(out@ =~= out0 + seq![all[i as int], all[i + 1]]);
                            assert(out0 + runs_text(rem) =~= out@ + runs_text(
                                all.skip(e as int),
                            ));
                        }
                    } else {
                        out.push(chars[start]);
                        out.push('-');
                        out.push(chars[e - 1]);
                        proof {
                            let rl = run_len(rem) as int;
                            assert(rl == e - start);
                            assert(rem[0] == all[i as int]);
                            assert(rem[rl - 1] == all[e - 1]);
                            assert(rem.skip(rl) =~= all.skip(e as int));
                            assert(runs_text(rem) == seq![rem[0], '-', rem[rl - 1]] + runs_text(
                                rem.skip(rl),
                            ));
                            assert(out@ =~= out0 + seq![all[i as int], '-', all[e - 1]]);
                            assert(out0 + runs_text(rem) =~= out@ + runs_text(
                                all.skip(e as int),
                            ));
                        }
                    }
                    i = e;
                }
                out.push(']');
                proof {
                    assert(all.skip(i as int).len() == 0);
                    assert(runs_text(all.skip(i as int)) =~= Seq::<char>::empty());
                    assert(out@ =~= (seq!['['] + runs_text(all)) + seq![']']);
                    assert(out@ =~= class_text_of(all));
                }
                out
            },
            _ => {
                proof {
                    assert(false);
                }
                Vec::new()
            },
        }
    }
}

} // verus!
