//! The specification-level model of distributions: sequences of
//! `(outcome, ratio)` pairs, with the lookup, regrouping, filtering and
//! aggregation functions that the executable combinators are specified
//! and proved against.

use vstd::prelude::*;

use crate::ratio::rat_add;
use crate::ratio::rat_div;
use crate::ratio::rat_fits;
use crate::ratio::rat_mul;
use crate::ratio::rat_wf;
use crate::ratio::rat_zero;
use crate::ratio::Ratio;

verus! {

/// Some pair of the sequence holds this key.
pub open spec fn has_key<A, B>(s: Seq<(A, B)>, t: A) -> bool {
    exists|i: int| 0 <= i < s.len() && s[i].0 == t
}

/// The first position whose pair holds this key.
pub open spec fn key_index<A, B>(s: Seq<(A, B)>, t: A) -> int
    decreases s.len(),
{
    if s.len() == 0 {
        0
    } else if s[0].0 == t {
        0
    } else {
        1 + key_index(s.drop_first(), t)
    }
}

/// When the key occurs, [`key_index`] is the first position holding it.
pub proof fn lemma_key_index<A, B>(s: Seq<(A, B)>, t: A)
    requires
        has_key(s, t),
    ensures
        0 <= key_index(s, t) < s.len(),
        s[key_index(s, t)].0 == t,
        forall|j: int| 0 <= j < key_index(s, t) ==> s[j].0 != t,
    decreases s.len(),
{
    if s[0].0 == t {
    } else {
        assert(has_key(s.drop_first(), t)) by {
            let i = choose|i: int| 0 <= i < s.len() && s[i].0 == t;
            assert(s.drop_first()[i - 1] == s[i]);
        }
        lemma_key_index(s.drop_first(), t);
        assert forall|j: int| 0 <= j < key_index(s, t) implies s[j].0 != t by {
            if j > 0 {
                assert(s.drop_first()[j - 1] == s[j]);
            }
        }
    }
}

/// Conversely, the first position holding a key is [`key_index`].
pub proof fn lemma_key_index_of_first<A, B>(s: Seq<(A, B)>, t: A, i: int)
    requires
        0 <= i < s.len(),
        s[i].0 == t,
        forall|j: int| 0 <= j < i ==> s[j].0 != t,
    ensures
        has_key(s, t),
        key_index(s, t) == i,
    decreases i,
{
    if i == 0 {
    } else {
        assert(s.drop_first()[i - 1] == s[i]);
        assert forall|j: int| 0 <= j < i - 1 implies s.drop_first()[j].0 != t by {
            assert(s.drop_first()[j] == s[j + 1]);
        }
        lemma_key_index_of_first(s.drop_first(), t, i - 1);
    }
}


/// A nonempty sequence holds a key exactly when its head does or its
/// tail does.
pub proof fn lemma_has_key_unfold<A, B>(s: Seq<(A, B)>, t: A)
    requires
        s.len() > 0,
    ensures
        has_key(s, t) <==> (s[0].0 == t || has_key(s.drop_first(), t)),
{
    if has_key(s, t) {
        let i = choose|i: int| 0 <= i < s.len() && s[i].0 == t;
        if i > 0 {
            assert(s.drop_first()[i - 1] == s[i]);
        }
    }
    if has_key(s.drop_first(), t) {
        let i = choose|i: int| 0 <= i < s.drop_first().len() && s.drop_first()[i].0 == t;
        assert(s[i + 1] == s.drop_first()[i]);
    }
}

/// No two pairs hold equal keys.
pub open spec fn unique_keys<A, B>(s: Seq<(A, B)>) -> bool {
    forall|i: int, j: int| 0 <= i < j < s.len() ==> s[i].0 != s[j].0
}

/// Every ratio of the sequence is well-formed.
pub open spec fn wf_entries<A>(s: Seq<(A, Ratio)>) -> bool {
    forall|i: int| 0 <= i < s.len() ==> rat_wf(#[trigger] s[i].1)
}

/// The probability of an outcome: the ratio stored at its first
/// position, and exactly zero when the outcome is absent.
pub open spec fn lookup<A>(s: Seq<(A, Ratio)>, t: A) -> Ratio {
    if has_key(s, t) {
        s[key_index(s, t)].1
    } else {
        rat_zero()
    }
}

/// Add a contribution for one outcome: when the outcome already occurs,
/// its probability grows in place; otherwise the pair is appended.
pub open spec fn upsert<A>(s: Seq<(A, Ratio)>, t: A, p: Ratio) -> Seq<(A, Ratio)> {
    if has_key(s, t) {
        s.update(key_index(s, t), (t, rat_add(s[key_index(s, t)].1, p)))
    } else {
        s.push((t, p))
    }
}

/// Regroup the remaining pairs into the accumulator, in order.
pub open spec fn regroup_from<A>(acc: Seq<(A, Ratio)>, rest: Seq<(A, Ratio)>) -> Seq<(A, Ratio)>
    decreases rest.len(),
{
    if rest.len() == 0 {
        acc
    } else {
        regroup_from(upsert(acc, rest[0].0, rest[0].1), rest.drop_first())
    }
}

/// Merge-by-equality: sum the probabilities of repeated outcomes into a
/// single pair, at the position of the outcome's first occurrence.
pub open spec fn regroup<A>(s: Seq<(A, Ratio)>) -> Seq<(A, Ratio)> {
    regroup_from(Seq::empty(), s)
}

/// Every sum formed while regrouping the remaining pairs into the
/// accumulator is representable.
pub open spec fn regroup_from_fits<A>(acc: Seq<(A, Ratio)>, rest: Seq<(A, Ratio)>) -> bool
    decreases rest.len(),
{
    if rest.len() == 0 {
        true
    } else {
        &&& (has_key(acc, rest[0].0) ==> rat_fits(
            rat_add(acc[key_index(acc, rest[0].0)].1, rest[0].1),
        ))
        &&& regroup_from_fits(upsert(acc, rest[0].0, rest[0].1), rest.drop_first())
    }
}

/// Every sum formed while regrouping the sequence is representable.
pub open spec fn regroup_fits<A>(s: Seq<(A, Ratio)>) -> bool {
    regroup_from_fits(Seq::empty(), s)
}

/// The sum of all probabilities of the sequence, accumulated from the
/// front exactly as the executable code does.
pub open spec fn sum_probs<A>(s: Seq<(A, Ratio)>) -> Ratio
    decreases s.len(),
{
    if s.len() == 0 {
        rat_zero()
    } else {
        rat_add(sum_probs(s.drop_last()), s.last().1)
    }
}

/// Every partial sum formed while summing the probabilities is
/// representable.
pub open spec fn sum_fits<A>(s: Seq<(A, Ratio)>) -> bool
    decreases s.len(),
{
    if s.len() == 0 {
        true
    } else {
        sum_fits(s.drop_last()) && rat_fits(rat_add(sum_probs(s.drop_last()), s.last().1))
    }
}

/// The pairs whose flag is set, in order.
pub open spec fn filter_keep<A>(s: Seq<(A, Ratio)>, keep: Seq<bool>) -> Seq<(A, Ratio)>
    decreases s.len(),
{
    if s.len() == 0 {
        Seq::empty()
    } else if keep[s.len() - 1] {
        filter_keep(s.drop_last(), keep.drop_last()).push(s.last())
    } else {
        filter_keep(s.drop_last(), keep.drop_last())
    }
}

/// Every probability multiplied by a common factor.
pub open spec fn scale<A>(p: Ratio, s: Seq<(A, Ratio)>) -> Seq<(A, Ratio)> {
    s.map_values(|e: (A, Ratio)| (e.0, rat_mul(p, e.1)))
}

/// Every probability divided by a common factor.
pub open spec fn div_each<A>(s: Seq<(A, Ratio)>, f: Ratio) -> Seq<(A, Ratio)> {
    s.map_values(|e: (A, Ratio)| (e.0, rat_div(e.1, f)))
}

/// The pairs a bind emits before regrouping: for each original pair, the
/// matching inner sequence scaled by the original pair's probability,
/// all concatenated in order.
pub open spec fn bind_expand<A, B>(s: Seq<(A, Ratio)>, inners: Seq<Seq<(B, Ratio)>>) -> Seq<
    (B, Ratio),
>
    decreases s.len(),
{
    if s.len() == 0 {
        Seq::empty()
    } else {
        scale(s[0].1, inners[0]) + bind_expand(s.drop_first(), inners.drop_first())
    }
}

/// Every product formed when scaling the sequence by `p` is
/// representable.
pub open spec fn scale_fits<A>(p: Ratio, s: Seq<(A, Ratio)>) -> bool {
    forall|j: int| 0 <= j < s.len() ==> rat_fits(rat_mul(p, #[trigger] s[j].1))
}

/// Every product formed when a bind scales each inner sequence by its
/// outer probability is representable.
pub open spec fn bind_scale_fits<A, B>(s: Seq<(A, Ratio)>, inners: Seq<Seq<(B, Ratio)>>) -> bool {
    forall|i: int| 0 <= i < s.len() ==> scale_fits(s[i].1, #[trigger] inners[i])
}

/// Every quotient formed when dividing the sequence by `f` is
/// representable.
pub open spec fn div_fits<A>(s: Seq<(A, Ratio)>, f: Ratio) -> bool {
    forall|i: int| 0 <= i < s.len() ==> rat_fits(rat_div(#[trigger] s[i].1, f))
}

/// Appending one more outer pair and its inner sequence extends the
/// expansion by that inner sequence, scaled.
pub proof fn lemma_bind_expand_snoc<A, B>(
    s: Seq<(A, Ratio)>,
    inners: Seq<Seq<(B, Ratio)>>,
    e: (A, Ratio),
    v: Seq<(B, Ratio)>,
)
    requires
        s.len() == inners.len(),
    ensures
        bind_expand(s.push(e), inners.push(v)) == bind_expand(s, inners) + scale(e.1, v),
    decreases s.len(),
{
    if s.len() == 0 {
        assert(s.push(e).drop_first() =~= s);
        assert(inners.push(v).drop_first() =~= inners);
        assert(bind_expand(s.push(e), inners.push(v)) == scale(e.1, v) + bind_expand(s, inners));
        assert(scale(e.1, v) + Seq::<(B, Ratio)>::empty() =~= Seq::<(B, Ratio)>::empty() + scale(
            e.1,
            v,
        ));
    } else {
        assert(s.push(e).drop_first() =~= s.drop_first().push(e));
        assert(inners.push(v).drop_first() =~= inners.drop_first().push(v));
        lemma_bind_expand_snoc(s.drop_first(), inners.drop_first(), e, v);
        assert(scale(s[0].1, inners[0]) + (bind_expand(s.drop_first(), inners.drop_first())
            + scale(e.1, v)) =~= (scale(s[0].1, inners[0]) + bind_expand(
            s.drop_first(),
            inners.drop_first(),
        )) + scale(e.1, v));
    }
}

/// A sequence whose partial sums are representable has representable
/// partial sums over every prefix.
pub proof fn lemma_sum_fits_prefix<A>(s: Seq<(A, Ratio)>, n: int)
    requires
        0 <= n <= s.len(),
        sum_fits(s),
    ensures
        sum_fits(s.take(n)),
    decreases s.len(),
{
    if n == s.len() {
        assert(s.take(n) =~= s);
    } else {
        assert(s.drop_last().take(n) =~= s.take(n));
        lemma_sum_fits_prefix(s.drop_last(), n);
    }
}

/// The pair occurs somewhere in the sequence.
pub open spec fn occurs_in<A>(e: (A, Ratio), s: Seq<(A, Ratio)>) -> bool {
    exists|j: int| 0 <= j < s.len() && e == s[j]
}

/// Filtering keeps outcomes unique, and every retained pair occurs in
/// the original sequence.
pub proof fn lemma_filter_keep_unique<A>(s: Seq<(A, Ratio)>, keep: Seq<bool>)
    requires
        unique_keys(s),
    ensures
        unique_keys(filter_keep(s, keep)),
        forall|i: int|
            0 <= i < filter_keep(s, keep).len() ==> occurs_in(
                #[trigger] filter_keep(s, keep)[i],
                s,
            ),
    decreases s.len(),
{
    if s.len() == 0 {
    } else {
        let sp = s.drop_last();
        let fprev = filter_keep(sp, keep.drop_last());
        let fcur = filter_keep(s, keep);
        assert(unique_keys(sp)) by {
            assert(forall|i: int| 0 <= i < sp.len() ==> sp[i] == s[i]);
        }
        lemma_filter_keep_unique(sp, keep.drop_last());
        assert forall|i: int| 0 <= i < fcur.len() implies occurs_in(fcur[i], s) by {
            if i < fprev.len() {
                assert(fcur[i] == fprev[i]);
                assert(occurs_in(fprev[i], sp));
                let j = choose|j: int| 0 <= j < sp.len() && fprev[i] == sp[j];
                assert(fcur[i] == s[j]);
            } else {
                assert(fcur[i] == s[s.len() - 1]);
            }
        }
        if keep[s.len() - 1] {
            assert forall|i: int, j: int| 0 <= i < j < fcur.len() implies fcur[i].0 != fcur[j].0 by {
                if j < fprev.len() {
                } else {
                    assert(fcur[j] == s.last());
                    assert(occurs_in(fprev[i], sp));
                    let m = choose|m: int| 0 <= m < sp.len() && fprev[i] == sp[m];
                    assert(s[m].0 != s[s.len() - 1].0);
                }
            }
        }
    }
}

} // verus!
