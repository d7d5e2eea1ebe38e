//! The laws of the distribution algebra, stated over the
//! specification-level model and proved once and for all.  Each public
//! operation's contract pins its result to the model (`regroup`,
//! `filter_keep`, `div_each`, `bind_expand`), so these laws carry over
//! to every value the executable combinators produce.

use vstd::prelude::*;

use crate::dist::flatten_views;
use crate::dist::relabel;
use crate::dist::views_of;
use crate::dist::Distribution;
use crate::dist::uniform_view;
use crate::model::bind_expand;
use crate::model::div_each;
use crate::model::scale;
use crate::model::filter_keep;
use crate::model::has_key;
use crate::model::key_index;
use crate::model::lookup;
use crate::model::lemma_key_index;
use crate::model::regroup;
use crate::model::regroup_from;
use crate::model::sum_probs;
use crate::model::unique_keys;
use crate::model::upsert;
use crate::model::wf_entries;
use crate::ratio::lemma_rat_add_assoc;
use crate::ratio::lemma_rat_add_comm;
use crate::ratio::lemma_rat_add_congruence;
use crate::ratio::lemma_rat_add_swap;
use crate::ratio::lemma_rat_add_zero;
use crate::ratio::lemma_rat_add_wf;
use crate::ratio::lemma_rat_div_add;
use crate::ratio::lemma_rat_div_self;
use crate::ratio::lemma_rat_mul_dist_add;
use crate::ratio::lemma_rat_mul_one;
use crate::ratio::lemma_rat_mul_wf;
use crate::ratio::lemma_rat_mul_zero;
use crate::ratio::lemma_rat_div_wf;
use crate::ratio::lemma_rat_eq_trans;
use crate::ratio::rat_div;
use crate::ratio::rat_eq;
use crate::ratio::rat_mul;
use crate::ratio::rat_one;
use crate::ratio::rat_wf;
use crate::ratio::rat_zero;
use crate::ratio::Ratio;

verus! {

/// The sum of well-formed probabilities is well-formed.
pub proof fn lemma_sum_probs_wf<A>(s: Seq<(A, Ratio)>)
    requires
        wf_entries(s),
    ensures
        rat_wf(sum_probs(s)),
    decreases s.len(),
{
    if s.len() == 0 {
    } else {
        assert(wf_entries(s.drop_last())) by {
            assert(forall|i: int| 0 <= i < s.len() - 1 ==> s.drop_last()[i] == s[i]);
        }
        lemma_sum_probs_wf(s.drop_last());
        lemma_rat_add_wf(sum_probs(s.drop_last()), s.last().1);
    }
}

/// Filtering keeps every probability well-formed.
pub proof fn lemma_filter_keep_wf<A>(s: Seq<(A, Ratio)>, keep: Seq<bool>)
    requires
        wf_entries(s),
    ensures
        wf_entries(filter_keep(s, keep)),
    decreases s.len(),
{
    if s.len() == 0 {
    } else {
        assert(wf_entries(s.drop_last())) by {
            assert(forall|i: int| 0 <= i < s.len() - 1 ==> s.drop_last()[i] == s[i]);
        }
        lemma_filter_keep_wf(s.drop_last(), keep.drop_last());
    }
}

/// Dividing every probability by a common factor changes no outcome and
/// no position: the result holds a key exactly where the original does.
pub proof fn lemma_div_each_keys<A>(s: Seq<(A, Ratio)>, f: Ratio, t: A)
    ensures
        has_key(div_each(s, f), t) == has_key(s, t),
        !has_key(s, t) ==> lookup(div_each(s, f), t) == rat_zero(),
{
    assert(forall|i: int| 0 <= i < s.len() ==> (#[trigger] div_each(s, f)[i]).0 == s[i].0);
    if has_key(s, t) {
        let i = choose|i: int| 0 <= i < s.len() && s[i].0 == t;
        assert(div_each(s, f)[i].0 == t);
    }
    if has_key(div_each(s, f), t) {
        let i = choose|i: int| 0 <= i < div_each(s, f).len() && div_each(s, f)[i].0 == t;
        assert(s[i].0 == t);
    }
}

/// Dividing every probability by `f` divides the total by `f`.
pub proof fn lemma_div_each_sum<A>(s: Seq<(A, Ratio)>, f: Ratio)
    requires
        wf_entries(s),
        rat_wf(f),
        f.num >= 1,
    ensures
        rat_eq(sum_probs(div_each(s, f)), rat_div(sum_probs(s), f)),
        wf_entries(div_each(s, f)),
    decreases s.len(),
{
    assert forall|i: int| 0 <= i < s.len() implies rat_wf(#[trigger] div_each(s, f)[i].1) by {
        assert(div_each(s, f)[i].1 == rat_div(s[i].1, f));
        lemma_rat_div_wf(s[i].1, f);
    }
    if s.len() == 0 {
        assert(div_each(s, f) =~= Seq::<(A, Ratio)>::empty());
        assert(rat_div(sum_probs(s), f).num == 0);
        assert(rat_eq(rat_zero(), rat_div(sum_probs(s), f)));
    } else {
        let sp = s.drop_last();
        assert(wf_entries(sp)) by {
            assert(forall|i: int| 0 <= i < sp.len() ==> sp[i] == s[i]);
        }
        lemma_div_each_sum(sp, f);
        assert(div_each(s, f).drop_last() =~= div_each(sp, f));
        assert(div_each(s, f).last() == (s.last().0, rat_div(s.last().1, f)));
        lemma_sum_probs_wf(sp);
        lemma_sum_probs_wf(s);
        lemma_rat_div_wf(sum_probs(sp), f);
        lemma_rat_div_wf(s.last().1, f);
        lemma_rat_div_wf(sum_probs(s), f);
        lemma_sum_probs_wf(div_each(sp, f));
        lemma_sum_probs_wf(div_each(s, f));
        assert(sum_probs(div_each(s, f)) == rat_add_pair(
            sum_probs(div_each(sp, f)),
            rat_div(s.last().1, f),
        ));
        // replace the recursive sum by its divided form, then fold the
        // division out of the addition
        lemma_rat_add_congruence(
            sum_probs(div_each(sp, f)),
            rat_div(s.last().1, f),
            rat_div(sum_probs(sp), f),
            rat_div(s.last().1, f),
        );
        lemma_rat_div_add(sum_probs(sp), s.last().1, f);
        lemma_rat_add_wf(rat_div(sum_probs(sp), f), rat_div(s.last().1, f));
        lemma_rat_eq_trans(
            sum_probs(div_each(s, f)),
            rat_add_pair(rat_div(sum_probs(sp), f), rat_div(s.last().1, f)),
            rat_div(sum_probs(s), f),
        );
    }
}

/// Renaming [`crate::ratio::rat_add`] for the one place a chained proof
/// step needs the applied form spelled out.
pub open spec fn rat_add_pair(a: Ratio, b: Ratio) -> Ratio {
    crate::ratio::rat_add(a, b)
}

/// Conditioning renormalizes: after restricting to the retained pairs
/// and dividing by their total mass, the probabilities sum to exactly
/// one, and every outcome that was filtered away has probability
/// exactly zero.
pub proof fn lemma_conditioning_renormalizes<A>(s: Seq<(A, Ratio)>, keep: Seq<bool>, t: A)
    requires
        wf_entries(s),
        sum_probs(filter_keep(s, keep)).num >= 1,
    ensures
        rat_eq(
            sum_probs(div_each(filter_keep(s, keep), sum_probs(filter_keep(s, keep)))),
            rat_one(),
        ),
        !has_key(filter_keep(s, keep), t) ==> lookup(
            div_each(filter_keep(s, keep), sum_probs(filter_keep(s, keep))),
            t,
        ) == rat_zero(),
{
    let kept = filter_keep(s, keep);
    let f = sum_probs(kept);
    lemma_filter_keep_wf(s, keep);
    lemma_sum_probs_wf(kept);
    lemma_div_each_sum(kept, f);
    lemma_rat_div_self(f);
    lemma_sum_probs_wf(div_each(kept, f));
    lemma_rat_div_wf(f, f);
    lemma_rat_eq_trans(sum_probs(div_each(kept, f)), rat_div(f, f), rat_one());
    lemma_div_each_keys(kept, f, t);
}

/// The total probability can also be peeled from the front.
pub proof fn lemma_sum_front<A>(s: Seq<(A, Ratio)>)
    requires
        s.len() > 0,
        wf_entries(s),
    ensures
        rat_eq(sum_probs(s), rat_add_pair(s[0].1, sum_probs(s.drop_first()))),
    decreases s.len(),
{
    lemma_sum_probs_wf(s);
    assert(wf_entries(s.drop_first())) by {
        assert(forall|i: int|
            0 <= i < s.drop_first().len() ==> s.drop_first()[i] == s[i + 1]);
    }
    lemma_sum_probs_wf(s.drop_first());
    if s.len() == 1 {
        assert(s.drop_last() =~= Seq::<(A, Ratio)>::empty());
        assert(s.drop_first() =~= Seq::<(A, Ratio)>::empty());
        lemma_rat_add_zero(s[0].1);
        lemma_rat_add_comm(rat_zero(), s[0].1);
    } else {
        let sp = s.drop_last();
        assert(wf_entries(sp)) by {
            assert(forall|i: int| 0 <= i < sp.len() ==> sp[i] == s[i]);
        }
        assert(wf_entries(sp.drop_first())) by {
            assert(forall|i: int|
                0 <= i < sp.drop_first().len() ==> sp.drop_first()[i] == s[i + 1]);
        }
        lemma_sum_front(sp);
        lemma_sum_probs_wf(sp);
        lemma_sum_probs_wf(sp.drop_first());
        lemma_rat_add_wf(sp[0].1, sum_probs(sp.drop_first()));
        lemma_rat_add_congruence(
            sum_probs(sp),
            s.last().1,
            rat_add_pair(sp[0].1, sum_probs(sp.drop_first())),
            s.last().1,
        );
        assert(s.drop_first().drop_last() =~= sp.drop_first());
        assert(rat_add_pair(sum_probs(sp.drop_first()), s.last().1) == sum_probs(s.drop_first()));
        lemma_rat_add_assoc(sp[0].1, sum_probs(sp.drop_first()), s.last().1);
        lemma_rat_add_wf(rat_add_pair(sp[0].1, sum_probs(sp.drop_first())), s.last().1);
        lemma_rat_add_wf(sp[0].1, sum_probs(s.drop_first()));
        lemma_rat_eq_trans(
            sum_probs(s),
            rat_add_pair(rat_add_pair(sp[0].1, sum_probs(sp.drop_first())), s.last().1),
            rat_add_pair(sp[0].1, sum_probs(s.drop_first())),
        );
    }
}

/// Growing one probability in place grows the total by the same amount.
pub proof fn lemma_sum_update<A>(s: Seq<(A, Ratio)>, i: int, e: (A, Ratio), p: Ratio)
    requires
        wf_entries(s),
        rat_wf(p),
        0 <= i < s.len(),
        e.1 == rat_add_pair(s[i].1, p),
    ensures
        rat_eq(sum_probs(s.update(i, e)), rat_add_pair(sum_probs(s), p)),
        wf_entries(s.update(i, e)),
    decreases s.len(),
{
    lemma_sum_probs_wf(s);
    assert(wf_entries(s.update(i, e))) by {
        lemma_rat_add_wf(s[i].1, p);
        assert(forall|j: int| 0 <= j < s.len() && j != i ==> s.update(i, e)[j] == s[j]);
    }
    let u = s.update(i, e);
    lemma_sum_probs_wf(u);
    let sp = s.drop_last();
    assert(wf_entries(sp)) by {
        assert(forall|j: int| 0 <= j < sp.len() ==> sp[j] == s[j]);
    }
    lemma_sum_probs_wf(sp);
    if i == s.len() - 1 {
        assert(u.drop_last() =~= sp);
        assert(u.last() == e);
        lemma_rat_add_assoc(sum_probs(sp), s[i].1, p);
    } else {
        assert(u.drop_last() =~= sp.update(i, e));
        assert(u.last() == s.last());
        lemma_sum_update(sp, i, e, p);
        lemma_sum_probs_wf(sp.update(i, e));
        lemma_rat_add_wf(sum_probs(sp), p);
        lemma_rat_add_congruence(
            sum_probs(sp.update(i, e)),
            s.last().1,
            rat_add_pair(sum_probs(sp), p),
            s.last().1,
        );
        lemma_rat_add_swap(sum_probs(sp), p, s.last().1);
        lemma_rat_add_wf(rat_add_pair(sum_probs(sp), p), s.last().1);
        lemma_rat_add_wf(rat_add_pair(sum_probs(sp), s.last().1), p);
        lemma_rat_eq_trans(
            sum_probs(u),
            rat_add_pair(rat_add_pair(sum_probs(sp), p), s.last().1),
            rat_add_pair(rat_add_pair(sum_probs(sp), s.last().1), p),
        );
    }
}

/// Adding one outcome's contribution grows the total by exactly that
/// contribution, whether the outcome was present or not.
pub proof fn lemma_sum_upsert<A>(s: Seq<(A, Ratio)>, t: A, p: Ratio)
    requires
        wf_entries(s),
        rat_wf(p),
    ensures
        rat_eq(sum_probs(upsert(s, t, p)), rat_add_pair(sum_probs(s), p)),
        wf_entries(upsert(s, t, p)),
{
    if has_key(s, t) {
        lemma_key_index(s, t);
        lemma_sum_update(s, key_index(s, t), (t, rat_add_pair(s[key_index(s, t)].1, p)), p);
    } else {
        assert(s.push((t, p)).drop_last() =~= s);
        assert(forall|j: int| 0 <= j < s.len() ==> s.push((t, p))[j] == s[j]);
    }
}

/// Regrouping the remaining pairs into the accumulator yields the sum
/// of both totals.
pub proof fn lemma_regroup_from_mass<A>(acc: Seq<(A, Ratio)>, rest: Seq<(A, Ratio)>)
    requires
        wf_entries(acc),
        wf_entries(rest),
    ensures
        rat_eq(sum_probs(regroup_from(acc, rest)), rat_add_pair(sum_probs(acc), sum_probs(rest))),
        wf_entries(regroup_from(acc, rest)),
    decreases rest.len(),
{
    lemma_sum_probs_wf(acc);
    lemma_sum_probs_wf(rest);
    if rest.len() == 0 {
        lemma_rat_add_zero(sum_probs(acc));
    } else {
        let e = rest[0];
        let up = upsert(acc, e.0, e.1);
        assert(rat_wf(e.1));
        lemma_sum_upsert(acc, e.0, e.1);
        assert(wf_entries(rest.drop_first())) by {
            assert(forall|i: int|
                0 <= i < rest.drop_first().len() ==> rest.drop_first()[i] == rest[i + 1]);
        }
        lemma_regroup_from_mass(up, rest.drop_first());
        lemma_sum_probs_wf(up);
        lemma_sum_probs_wf(rest.drop_first());
        lemma_sum_probs_wf(regroup_from(acc, rest));
        lemma_rat_add_wf(sum_probs(acc), e.1);
        lemma_rat_add_wf(sum_probs(up), sum_probs(rest.drop_first()));
        lemma_rat_add_wf(rat_add_pair(sum_probs(acc), e.1), sum_probs(rest.drop_first()));
        lemma_rat_add_wf(e.1, sum_probs(rest.drop_first()));
        lemma_rat_add_wf(sum_probs(acc), rat_add_pair(e.1, sum_probs(rest.drop_first())));
        lemma_rat_add_wf(sum_probs(acc), sum_probs(rest));
        lemma_rat_add_congruence(
            sum_probs(up),
            sum_probs(rest.drop_first()),
            rat_add_pair(sum_probs(acc), e.1),
            sum_probs(rest.drop_first()),
        );
        lemma_rat_add_wf(sum_probs(acc), e.1);
        lemma_rat_add_wf(sum_probs(up), sum_probs(rest.drop_first()));
        lemma_rat_eq_trans(
            sum_probs(regroup_from(acc, rest)),
            rat_add_pair(sum_probs(up), sum_probs(rest.drop_first())),
            rat_add_pair(rat_add_pair(sum_probs(acc), e.1), sum_probs(rest.drop_first())),
        );
        lemma_rat_add_assoc(sum_probs(acc), e.1, sum_probs(rest.drop_first()));
        lemma_rat_add_wf(e.1, sum_probs(rest.drop_first()));
        lemma_rat_add_wf(rat_add_pair(sum_probs(acc), e.1), sum_probs(rest.drop_first()));
        lemma_rat_eq_trans(
            sum_probs(regroup_from(acc, rest)),
            rat_add_pair(rat_add_pair(sum_probs(acc), e.1), sum_probs(rest.drop_first())),
            rat_add_pair(sum_probs(acc), rat_add_pair(e.1, sum_probs(rest.drop_first()))),
        );
        lemma_sum_front(rest);
        lemma_rat_add_congruence(
            sum_probs(acc),
            rat_add_pair(e.1, sum_probs(rest.drop_first())),
            sum_probs(acc),
            sum_probs(rest),
        );
        lemma_rat_add_wf(sum_probs(acc), rat_add_pair(e.1, sum_probs(rest.drop_first())));
        lemma_rat_add_wf(sum_probs(acc), sum_probs(rest));
        lemma_rat_eq_trans(
            sum_probs(regroup_from(acc, rest)),
            rat_add_pair(sum_probs(acc), rat_add_pair(e.1, sum_probs(rest.drop_first()))),
            rat_add_pair(sum_probs(acc), sum_probs(rest)),
        );
    }
}

/// Probability mass is conserved by regrouping: merging repeated
/// outcomes never changes the total probability.
pub proof fn lemma_regroup_mass<A>(s: Seq<(A, Ratio)>)
    requires
        wf_entries(s),
    ensures
        rat_eq(sum_probs(regroup(s)), sum_probs(s)),
        wf_entries(regroup(s)),
{
    lemma_regroup_from_mass(Seq::empty(), s);
    lemma_sum_probs_wf(s);
    lemma_rat_add_zero(sum_probs(s));
    lemma_rat_add_comm(rat_zero(), sum_probs(s));
}

/// The total of a sequence of equal probabilities `1 / d` is exactly
/// `len / d`.
proof fn lemma_ones_sum<A>(u: Seq<(A, Ratio)>, d: int)
    requires
        d >= 1,
        forall|i: int| 0 <= i < u.len() ==> (#[trigger] u[i].1) == (Ratio { num: 1, den: d }),
    ensures
        u.len() == 0 ==> sum_probs(u) == rat_zero(),
        u.len() >= 1 ==> sum_probs(u) == (Ratio { num: u.len() as int, den: d }),
    decreases u.len(),
{
    if u.len() == 0 {
    } else {
        let up = u.drop_last();
        assert(forall|i: int| 0 <= i < up.len() ==> up[i] == u[i]);
        lemma_ones_sum(up, d);
    }
}

/// A uniform distribution carries total probability one: `n` outcomes
/// of `1 / n` each sum to exactly `n / n`, and regrouping conserves it.
pub proof fn lemma_uniform_mass<A>(s: Seq<A>)
    requires
        s.len() >= 1,
    ensures
        rat_eq(sum_probs(regroup(uniform_view(s))), rat_one()),
{
    let u = uniform_view(s);
    let n = s.len() as int;
    assert(forall|i: int| 0 <= i < u.len() ==> (#[trigger] u[i].1) == (Ratio { num: 1, den: n }));
    lemma_ones_sum(u, n);
    assert(wf_entries(u));
    lemma_regroup_mass(u);
    lemma_sum_probs_wf(u);
    lemma_sum_probs_wf(regroup(u));
    lemma_regroup_from_mass(Seq::empty(), u);
    assert(rat_eq(sum_probs(u), rat_one()));
    lemma_rat_eq_trans(sum_probs(regroup(u)), sum_probs(u), rat_one());
}

/// Re-labeling outcomes moves no probability: the total is unchanged,
/// exactly.
pub proof fn lemma_relabel_mass<A, B>(us: Seq<B>, s: Seq<(A, Ratio)>)
    ensures
        sum_probs(relabel(us, s)) == sum_probs(s),
    decreases s.len(),
{
    if s.len() == 0 {
        assert(relabel(us, s) =~= Seq::<(B, Ratio)>::empty());
    } else {
        assert(relabel(us, s).drop_last() =~= relabel(us, s.drop_last()));
        assert(relabel(us, s).last().1 == s.last().1);
        lemma_relabel_mass(us, s.drop_last());
    }
}

/// Mapping outcomes conserves probability mass: the regrouped,
/// re-labeled pairs keep the original total.
pub proof fn lemma_map_mass<A, B>(us: Seq<B>, s: Seq<(A, Ratio)>)
    requires
        wf_entries(s),
    ensures
        rat_eq(sum_probs(regroup(relabel(us, s))), sum_probs(s)),
{
    lemma_relabel_mass(us, s);
    assert(wf_entries(relabel(us, s))) by {
        assert(forall|i: int|
            0 <= i < s.len() ==> (#[trigger] relabel(us, s)[i]).1 == s[i].1);
    }
    lemma_regroup_mass(relabel(us, s));
}

/// Concatenation adds the totals.
proof fn lemma_sum_concat<A>(a: Seq<(A, Ratio)>, b: Seq<(A, Ratio)>)
    requires
        wf_entries(a),
        wf_entries(b),
    ensures
        rat_eq(sum_probs(a + b), rat_add_pair(sum_probs(a), sum_probs(b))),
        wf_entries(a + b),
    decreases b.len(),
{
    lemma_sum_probs_wf(a);
    lemma_sum_probs_wf(b);
    assert(wf_entries(a + b)) by {
        assert(forall|i: int| 0 <= i < a.len() ==> (a + b)[i] == a[i]);
        assert(forall|i: int| a.len() <= i < a.len() + b.len() ==> (a + b)[i] == b[i - a.len()]);
    }
    lemma_sum_probs_wf(a + b);
    if b.len() == 0 {
        assert(a + b =~= a);
        lemma_rat_add_zero(sum_probs(a));
    } else {
        let bp = b.drop_last();
        assert(wf_entries(bp)) by {
            assert(forall|i: int| 0 <= i < bp.len() ==> bp[i] == b[i]);
        }
        lemma_sum_concat(a, bp);
        assert((a + b).drop_last() =~= a + bp);
        assert((a + b).last() == b.last());
        lemma_sum_probs_wf(bp);
        lemma_sum_probs_wf(a + bp);
        lemma_rat_add_wf(sum_probs(a), sum_probs(bp));
        lemma_rat_add_congruence(
            sum_probs(a + bp),
            b.last().1,
            rat_add_pair(sum_probs(a), sum_probs(bp)),
            b.last().1,
        );
        lemma_rat_add_assoc(sum_probs(a), sum_probs(bp), b.last().1);
        lemma_rat_add_wf(rat_add_pair(sum_probs(a), sum_probs(bp)), b.last().1);
        lemma_rat_add_wf(sum_probs(bp), b.last().1);
        lemma_rat_add_wf(sum_probs(a), rat_add_pair(sum_probs(bp), b.last().1));
        lemma_rat_eq_trans(
            sum_probs(a + b),
            rat_add_pair(rat_add_pair(sum_probs(a), sum_probs(bp)), b.last().1),
            rat_add_pair(sum_probs(a), rat_add_pair(sum_probs(bp), b.last().1)),
        );
    }
}

/// Scaling every probability by `p` multiplies the total by `p`.
proof fn lemma_sum_scale<A>(p: Ratio, s: Seq<(A, Ratio)>)
    requires
        rat_wf(p),
        wf_entries(s),
    ensures
        rat_eq(sum_probs(scale(p, s)), rat_mul(p, sum_probs(s))),
        wf_entries(scale(p, s)),
    decreases s.len(),
{
    lemma_sum_probs_wf(s);
    assert(wf_entries(scale(p, s))) by {
        assert forall|i: int| 0 <= i < s.len() implies rat_wf(#[trigger] scale(p, s)[i].1) by {
            assert(scale(p, s)[i].1 == rat_mul(p, s[i].1));
            lemma_rat_mul_wf(p, s[i].1);
        }
    }
    lemma_sum_probs_wf(scale(p, s));
    lemma_rat_mul_wf(p, sum_probs(s));
    if s.len() == 0 {
        assert(scale(p, s) =~= Seq::<(A, Ratio)>::empty());
        lemma_rat_mul_zero(p, rat_zero());
    } else {
        let sp = s.drop_last();
        assert(wf_entries(sp)) by {
            assert(forall|i: int| 0 <= i < sp.len() ==> sp[i] == s[i]);
        }
        lemma_sum_scale(p, sp);
        assert(scale(p, s).drop_last() =~= scale(p, sp));
        assert(scale(p, s).last().1 == rat_mul(p, s.last().1));
        lemma_sum_probs_wf(sp);
        lemma_sum_probs_wf(scale(p, sp));
        lemma_rat_mul_wf(p, sum_probs(sp));
        lemma_rat_mul_wf(p, s.last().1);
        lemma_rat_add_wf(rat_mul(p, sum_probs(sp)), rat_mul(p, s.last().1));
        lemma_rat_add_congruence(
            sum_probs(scale(p, sp)),
            rat_mul(p, s.last().1),
            rat_mul(p, sum_probs(sp)),
            rat_mul(p, s.last().1),
        );
        lemma_rat_mul_dist_add(p, sum_probs(sp), s.last().1);
        lemma_rat_eq_trans(
            sum_probs(scale(p, s)),
            rat_add_pair(rat_mul(p, sum_probs(sp)), rat_mul(p, s.last().1)),
            rat_mul(p, sum_probs(s)),
        );
    }
}

/// The law of total probability: when every inner distribution carries
/// total mass one, binding conserves the outer total.
pub proof fn lemma_bind_mass<A, B>(s: Seq<(A, Ratio)>, inners: Seq<Seq<(B, Ratio)>>)
    requires
        wf_entries(s),
        inners.len() == s.len(),
        forall|i: int| 0 <= i < inners.len() ==> wf_entries(#[trigger] inners[i]),
        forall|i: int|
            0 <= i < inners.len() ==> rat_eq(sum_probs(#[trigger] inners[i]), rat_one()),
    ensures
        rat_eq(sum_probs(bind_expand(s, inners)), sum_probs(s)),
        wf_entries(bind_expand(s, inners)),
    decreases s.len(),
{
    lemma_sum_probs_wf(s);
    if s.len() == 0 {
    } else {
        let p0 = s[0].1;
        let in0 = inners[0];
        let sp = s.drop_first();
        let ip = inners.drop_first();
        assert(wf_entries(sp)) by {
            assert(forall|i: int| 0 <= i < sp.len() ==> sp[i] == s[i + 1]);
        }
        assert(forall|i: int| 0 <= i < ip.len() ==> ip[i] == inners[i + 1]);
        assert(rat_wf(p0));
        lemma_bind_mass(sp, ip);
        lemma_sum_scale(p0, in0);
        lemma_sum_concat(scale(p0, in0), bind_expand(sp, ip));
        lemma_sum_probs_wf(sp);
        lemma_sum_probs_wf(in0);
        lemma_sum_probs_wf(scale(p0, in0));
        lemma_sum_probs_wf(bind_expand(sp, ip));
        lemma_sum_probs_wf(bind_expand(s, inners));
        lemma_rat_mul_wf(p0, sum_probs(in0));
        lemma_rat_add_wf(sum_probs(scale(p0, in0)), sum_probs(bind_expand(sp, ip)));
        lemma_rat_add_wf(rat_mul(p0, sum_probs(in0)), sum_probs(sp));
        lemma_rat_add_wf(p0, sum_probs(sp));
        lemma_rat_mul_one(p0, sum_probs(in0));
        lemma_rat_add_congruence(
            sum_probs(scale(p0, in0)),
            sum_probs(bind_expand(sp, ip)),
            rat_mul(p0, sum_probs(in0)),
            sum_probs(sp),
        );
        lemma_rat_add_congruence(rat_mul(p0, sum_probs(in0)), sum_probs(sp), p0, sum_probs(sp));
        // total of the expansion: scaled head plus expanded tail
        lemma_rat_eq_trans(
            sum_probs(bind_expand(s, inners)),
            rat_add_pair(sum_probs(scale(p0, in0)), sum_probs(bind_expand(sp, ip))),
            rat_add_pair(rat_mul(p0, sum_probs(in0)), sum_probs(sp)),
        );
        lemma_rat_eq_trans(
            sum_probs(bind_expand(s, inners)),
            rat_add_pair(rat_mul(p0, sum_probs(in0)), sum_probs(sp)),
            rat_add_pair(p0, sum_probs(sp)),
        );
        lemma_sum_front(s);
        lemma_rat_eq_trans(
            sum_probs(bind_expand(s, inners)),
            rat_add_pair(p0, sum_probs(sp)),
            sum_probs(s),
        );
    }
}

/// Regrouping a sequence whose outcomes are already unique changes
/// nothing.
pub proof fn lemma_regroup_from_unique<A>(acc: Seq<(A, Ratio)>, rest: Seq<(A, Ratio)>)
    requires
        unique_keys(acc + rest),
    ensures
        regroup_from(acc, rest) == acc + rest,
    decreases rest.len(),
{
    if rest.len() == 0 {
        assert(acc + rest =~= acc);
    } else {
        let e = rest[0];
        assert(!has_key(acc, e.0)) by {
            if has_key(acc, e.0) {
                let i = choose|i: int| 0 <= i < acc.len() && acc[i].0 == e.0;
                assert((acc + rest)[i].0 == (acc + rest)[acc.len() as int].0);
            }
        }
        assert(acc.push(e) + rest.drop_first() =~= acc + rest);
        lemma_regroup_from_unique(acc.push(e), rest.drop_first());
    }
}

/// The expansion of a bind depends only on the outer probabilities, not
/// on the outer outcomes.
proof fn lemma_bind_expand_probs<A, C, B>(
    s1: Seq<(A, Ratio)>,
    s2: Seq<(C, Ratio)>,
    v: Seq<Seq<(B, Ratio)>>,
)
    requires
        s1.len() == s2.len(),
        forall|i: int| 0 <= i < s1.len() ==> (#[trigger] s1[i]).1 == s2[i].1,
    ensures
        bind_expand(s1, v) == bind_expand(s2, v),
    decreases s1.len(),
{
    if s1.len() == 0 {
    } else {
        assert(forall|i: int|
            0 <= i < s1.drop_first().len() ==> (#[trigger] s1.drop_first()[i]).1
                == s2.drop_first()[i].1);
        lemma_bind_expand_probs(s1.drop_first(), s2.drop_first(), v.drop_first());
    }
}

/// Bind agrees with map-then-flatten whenever mapping produces pairwise
/// distinct intermediate experiments, so that regrouping the mapped
/// distribution merges nothing: expanding the mapped pairs gives
/// exactly the pairs that binding gives.
pub proof fn lemma_bind_flatten_agree<A, B>(s: Seq<(A, Ratio)>, ds: Seq<Distribution<B>>)
    requires
        ds.len() == s.len(),
        unique_keys(relabel(ds, s)),
    ensures
        regroup(
            bind_expand(regroup(relabel(ds, s)), flatten_views(regroup(relabel(ds, s)))),
        ) == regroup(bind_expand(s, views_of(ds))),
{
    let m = relabel(ds, s);
    assert(Seq::<(Distribution<B>, Ratio)>::empty() + m =~= m);
    lemma_regroup_from_unique(Seq::<(Distribution<B>, Ratio)>::empty(), m);
    assert(regroup(m) == m);
    assert(flatten_views(m) =~= views_of(ds));
    assert(forall|i: int| 0 <= i < m.len() ==> (#[trigger] m[i]).1 == s[i].1);
    lemma_bind_expand_probs(m, s, views_of(ds));
}

} // verus!
