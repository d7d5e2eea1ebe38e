//! The distribution container and its combinator algebra.
//!
//! A [`Distribution<T>`] is a finite probability mass function over
//! outcomes `T`, held as an association list of `(outcome, probability)`
//! pairs with unique outcomes, in first-occurrence order: the position
//! of an outcome is fixed by the first time it is produced, and later
//! contributions to the same outcome grow its probability in place.

use vstd::laws_eq::obeys_concrete_eq;
use vstd::prelude::*;
use vstd::std_specs::cmp::PartialEqSpec;
use vstd::std_specs::convert::FromSpec;
use vstd::std_specs::ops::AddSpec;

use crate::assoc_list::AssociationExt;
use crate::model::has_key;
use crate::model::key_index;
use crate::model::lemma_has_key_unfold;
use crate::model::lemma_key_index;
use crate::model::div_each;
use crate::model::div_fits;
use crate::model::filter_keep;
use crate::model::lemma_filter_keep_unique;
use crate::model::lemma_sum_fits_prefix;
use crate::model::lookup;
use crate::model::sum_fits;
use crate::model::sum_probs;
use crate::model::regroup;
use crate::model::regroup_fits;
use crate::model::regroup_from;
use crate::model::bind_expand;
use crate::model::bind_scale_fits;
use crate::model::lemma_bind_expand_snoc;
use crate::model::regroup_from_fits;
use crate::model::scale;
use crate::model::scale_fits;
use crate::model::unique_keys;
use crate::model::upsert;
use crate::model::wf_entries;
use crate::prob::Probability;
use crate::ratio::rat_div;
use crate::ratio::rat_eq;
use crate::ratio::rat_fits;
use crate::ratio::rat_mul;
use crate::ratio::rat_add;
use crate::ratio::rat_one;
use crate::ratio::rat_scale;
use crate::ratio::rat_zero;
use crate::ratio::Ratio;

verus! {

/// The error returned when an operation cannot produce a distribution.
#[derive(Clone, Copy, Debug, PartialEq, Eq, Structural)]
pub enum DistributionError {
    /// There is no probability mass to spread: a uniform distribution
    /// over no outcomes, or conditioning on an event of probability
    /// zero.  Either case would divide by zero, which no exact rational
    /// can express, so it is reported instead.
    NoMass,
    /// A probability left the representable range.
    Overflow,
}

/// The ratios denoted by a sequence of weighted outcomes.
pub open spec fn entries_view<T>(s: Seq<(T, Probability)>) -> Seq<(T, Ratio)> {
    s.map_values(|e: (T, Probability)| (e.0, e.1@))
}

/// A discrete probability distribution over the outcomes `T`, which
/// only need equality comparison.  Its mathematical value is a sequence
/// of `(outcome, ratio)` pairs with unique outcomes.
#[derive(Debug, Clone)]
pub struct Distribution<T>(Vec<(T, Probability)>);

impl<T> View for Distribution<T> {
    type V = Seq<(T, Ratio)>;

    closed spec fn view(&self) -> Seq<(T, Ratio)> {
        entries_view(self.0@)
    }
}

/// A sequence of weighted outcomes and its view hold the same keys at
/// the same first positions.
proof fn lemma_ev_key<T>(s: Seq<(T, Probability)>, t: T)
    ensures
        has_key(entries_view(s), t) == has_key(s, t),
        has_key(s, t) ==> key_index(entries_view(s), t) == key_index(s, t),
    decreases s.len(),
{
    let m = entries_view(s);
    if s.len() == 0 {
    } else {
        assert(m[0] == (s[0].0, s[0].1@));
        lemma_has_key_unfold(s, t);
        lemma_has_key_unfold(m, t);
        assert(entries_view(s.drop_first()) =~= m.drop_first());
        lemma_ev_key(s.drop_first(), t);
    }
}

/// Merge the pairs by outcome equality, summing the probabilities of
/// repeated outcomes into the first occurrence; `Overflow` exactly when
/// some such sum is not representable.
#[verifier::loop_isolation(false)]
fn regroup_entries<T: PartialEq>(input: Vec<(T, Probability)>) -> (r: Result<
    Vec<(T, Probability)>,
    DistributionError,
>)
    requires
        obeys_concrete_eq::<T>(),
    ensures
        match r {
            Ok(v) => {
                &&& regroup_fits(entries_view(input@))
                &&& entries_view(v@) == regroup(entries_view(input@))
                &&& unique_keys(entries_view(v@))
                &&& wf_entries(entries_view(v@))
            },
            Err(e) => e == DistributionError::Overflow && !regroup_fits(entries_view(input@)),
        },
{
    let ghost orig = entries_view(input@);
    let mut rest = input;
    let mut acc: Vec<(T, Probability)> = Vec::new();
    proof {
        assert(entries_view(acc@) =~= Seq::<(T, Ratio)>::empty());
    }
    while rest.len() > 0
        invariant
            obeys_concrete_eq::<T>(),
            regroup_from(entries_view(acc@), entries_view(rest@)) == regroup(orig),
            regroup_from_fits(entries_view(acc@), entries_view(rest@)) == regroup_fits(orig),
            unique_keys(entries_view(acc@)),
            wf_entries(entries_view(acc@)),
        decreases rest@.len(),
    {
        let ghost accv = entries_view(acc@);
        let ghost restv = entries_view(rest@);
        let (t, p) = rest.remove(0);
        let ghost tv = t;
        let ghost pv = p@;
        proof {
            assert(restv[0] == (tv, pv));
            assert(entries_view(rest@) =~= restv.drop_first());
            use_type_invariant(&p);
            p.lemma_inv_wf();
        }
        match acc.find_(&t) {
            Some(i) => {
                proof {
                    lemma_key_index(acc@, tv);
                    lemma_ev_key(acc@, tv);
                }
                let q = acc[i].1;
                match q.checked_add(p) {
                    Some(sum) => {
                        acc[i] = (t, sum);
                        proof {
                            assert(entries_view(acc@) =~= upsert(accv, tv, pv));
                            assert(unique_keys(entries_view(acc@))) by {
                                assert(forall|j: int|
                                    0 <= j < accv.len() ==> entries_view(acc@)[j].0
                                        == accv[j].0);
                            }
                        }
                    },
                    None => {
                        proof {
                            assert(!regroup_from_fits(accv, restv));
                        }
                        return Err(DistributionError::Overflow);
                    },
                }
            },
            None => {
                proof {
                    lemma_ev_key(acc@, tv);
                }
                acc.push((t, p));
                proof {
                    assert(entries_view(acc@) =~= upsert(accv, tv, pv));
                    assert(unique_keys(entries_view(acc@))) by {
                        assert(forall|j: int|
                            0 <= j < accv.len() ==> entries_view(acc@)[j].0 == accv[j].0);
                        assert(entries_view(acc@)[accv.len() as int].0 == tv);
                    }
                }
            },
        }
    }
    proof {
        assert(entries_view(rest@) =~= Seq::<(T, Ratio)>::empty());
    }
    Ok(acc)
}

impl<T> Distribution<T> where T: PartialEq {
    /// Create a distribution from the given weighted outcomes by
    /// regrouping: repeated outcomes are merged, their probabilities
    /// summed into the first occurrence.
    pub fn new(outcomes: Vec<(T, Probability)>) -> (r: Distribution<T>)
        requires
            obeys_concrete_eq::<T>(),
            regroup_fits(entries_view(outcomes@)),
        ensures
            r@ == regroup(entries_view(outcomes@)),
            unique_keys(r@),
            wf_entries(r@),
    {
        match regroup_entries(outcomes) {
            Ok(v) => Distribution(v),
            Err(_) => unreached(),
        }
    }

    /// The one-point distribution: the given outcome has probability 1.
    pub fn always(t: T) -> (r: Distribution<T>)
        ensures
            r@ == seq![(t, rat_one())],
    {
        let ghost tv = t;
        let one = Probability::one();
        let mut v: Vec<(T, Probability)> = Vec::new();
        v.push((t, one));
        let d = Distribution(v);
        proof {
            assert(d@ =~= seq![(tv, rat_one())]);
        }
        d
    }

    /// The probability of an outcome, from the probability mass
    /// function.  Total: an outcome absent from the distribution has
    /// probability exactly zero.
    pub fn pmf(&self, t: &T) -> (r: Probability)
        requires
            obeys_concrete_eq::<T>(),
        ensures
            r@ == lookup(self@, *t),
    {
        proof {
            lemma_ev_key(self.0@, *t);
        }
        match self.0.get_(t) {
            Some(p) => {
                proof {
                    lemma_key_index(self.0@, *t);
                }
                *p
            },
            None => Probability::zero(),
        }
    }

    /// The uniform distribution over a collection of outcomes, each
    /// given probability `1 / n`; repeated outcomes are merged, so a
    /// repeated outcome weighs `k / n`.  An empty collection has no
    /// mass to spread and is rejected.
    #[verifier::loop_isolation(false)]
    pub fn uniform(outcomes: Vec<T>) -> (r: Result<Distribution<T>, DistributionError>)
        requires
            obeys_concrete_eq::<T>(),
        ensures
            match r {
                Ok(d) => {
                    &&& outcomes@.len() >= 1
                    &&& regroup_fits(uniform_view(outcomes@))
                    &&& d@ == regroup(uniform_view(outcomes@))
                    &&& unique_keys(d@)
                    &&& wf_entries(d@)
                },
                Err(e) => (e == DistributionError::NoMass && outcomes@.len() == 0) || (e
                    == DistributionError::Overflow && outcomes@.len() >= 1 && !regroup_fits(
                    uniform_view(outcomes@),
                )),
            },
    {
        let ghost origo = outcomes@;
        let n = outcomes.len();
        if n == 0 {
            return Err(DistributionError::NoMass);
        }
        let p = match Probability::new(1, n as u64) {
            Ok(p) => p,
            Err(_) => unreached(),
        };
        let mut rest = outcomes;
        let mut pairs: Vec<(T, Probability)> = Vec::new();
        proof {
            assert(entries_view(pairs@) =~= uniform_view(origo).take(0));
        }
        while rest.len() > 0
            invariant
                pairs@.len() + rest@.len() == origo.len(),
                rest@ == origo.skip(pairs@.len() as int),
                entries_view(pairs@) == uniform_view(origo).take(pairs@.len() as int),
            decreases rest@.len(),
        {
            let ghost k = pairs@.len() as int;
            let ghost restv = rest@;
            let t = rest.remove(0);
            let ghost tv = t;
            let ghost pairsb = pairs@;
            proof {
                assert(restv[0] == origo[k]);
                assert(rest@ =~= origo.skip(k + 1));
            }
            pairs.push((t, p));
            proof {
                assert(pairs@.drop_last() =~= pairsb);
                assert forall|i: int|
                    0 <= i < k + 1 implies entries_view(pairs@)[i] == uniform_view(origo).take(
                    k + 1,
                )[i] by {
                    if i < k {
                        assert(pairs@[i] == pairsb[i]);
                        assert(entries_view(pairs@)[i] == entries_view(pairsb)[i]);
                        assert(entries_view(pairsb)[i] == uniform_view(origo).take(k)[i]);
                    } else {
                        assert(entries_view(pairs@)[k] == (tv, p@));
                        assert(uniform_view(origo)[k] == (origo[k], Ratio {
                            num: 1,
                            den: origo.len() as int,
                        }));
                    }
                }
                assert(entries_view(pairs@) =~= uniform_view(origo).take(k + 1));
            }
        }
        proof {
            assert(uniform_view(origo).take(origo.len() as int) =~= uniform_view(origo));
        }
        match regroup_entries(pairs) {
            Ok(v) => Ok(Distribution(v)),
            Err(_) => Err(DistributionError::Overflow),
        }
    }

    /// Condition the distribution on an event: keep the outcomes the
    /// predicate accepts, and renormalize by dividing every retained
    /// probability by their sum.  When the retained mass is zero —
    /// nothing satisfied the predicate, or only outcomes of probability
    /// zero did — renormalizing would divide by zero, so `NoMass` is
    /// reported instead.
    #[verifier::loop_isolation(false)]
    pub fn given<F: Fn(&T) -> bool>(self, condition: F) -> (r: Result<
        Distribution<T>,
        DistributionError,
    >)
        requires
            forall|i: int| 0 <= i < self@.len() ==> call_requires(condition, (&self@[i].0,)),
        ensures
            match r {
                Ok(d) => exists|keep: Seq<bool>|
                    {
                        &&& keep.len() == self@.len()
                        &&& (forall|i: int|
                            0 <= i < self@.len() ==> call_ensures(
                                condition,
                                (&self@[i].0,),
                                #[trigger] keep[i],
                            ))
                        &&& sum_fits(filter_keep(self@, keep))
                        &&& sum_probs(filter_keep(self@, keep)).num >= 1
                        &&& div_fits(filter_keep(self@, keep), sum_probs(filter_keep(self@, keep)))
                        &&& d@ == div_each(
                            filter_keep(self@, keep),
                            sum_probs(filter_keep(self@, keep)),
                        )
                        &&& (unique_keys(self@) ==> unique_keys(d@))
                        &&& wf_entries(d@)
                    },
                Err(e) => exists|keep: Seq<bool>|
                    {
                        &&& keep.len() == self@.len()
                        &&& (forall|i: int|
                            0 <= i < self@.len() ==> call_ensures(
                                condition,
                                (&self@[i].0,),
                                #[trigger] keep[i],
                            ))
                        &&& (e == DistributionError::NoMass ==> sum_fits(filter_keep(self@, keep))
                            && sum_probs(filter_keep(self@, keep)).num == 0)
                        &&& (e == DistributionError::Overflow ==> !sum_fits(
                            filter_keep(self@, keep),
                        ) || (sum_probs(filter_keep(self@, keep)).num >= 1 && !div_fits(
                            filter_keep(self@, keep),
                            sum_probs(filter_keep(self@, keep)),
                        )))
                    },
            },
    {
        let ghost origp = self.0@;
        let ghost origv = self@;
        let mut rest = self.0;
        let mut kept: Vec<(T, Probability)> = Vec::new();
        let ghost mut keep: Seq<bool> = Seq::empty();
        proof {
            assert(origv.len() == origp.len());
            assert(entries_view(kept@) =~= filter_keep(origv.take(0), keep));
        }
        while rest.len() > 0
            invariant
                keep.len() + rest@.len() == origp.len(),
                rest@ == origp.skip(keep.len() as int),
                forall|i: int|
                    0 <= i < keep.len() ==> call_ensures(
                        condition,
                        (&origp[i].0,),
                        #[trigger] keep[i],
                    ),
                entries_view(kept@) == filter_keep(origv.take(keep.len() as int), keep),
            decreases rest@.len(),
        {
            let ghost k = keep.len() as int;
            let ghost restv = rest@;
            let (t, p) = rest.remove(0);
            let ghost tv = t;
            let ghost pv = p@;
            proof {
                assert(restv[0] == origp[k]);
                assert(rest@ =~= origp.skip(k + 1));
                assert(origv[k] == (origp[k].0, origp[k].1@));
            }
            let b = condition(&t);
            let ghost keepb = keep;
            let ghost keptb = kept@;
            proof {
                keep = keep.push(b);
                assert(origv.take(k + 1).drop_last() =~= origv.take(k));
                assert(keep.drop_last() =~= keepb);
                assert(origv.take(k + 1).last() == (tv, pv));
            }
            if b {
                kept.push((t, p));
                proof {
                    assert(kept@.drop_last() =~= keptb);
                    assert forall|i: int|
                        0 <= i < kept@.len() implies entries_view(kept@)[i] == filter_keep(
                        origv.take(k + 1),
                        keep,
                    )[i] by {
                        if i < keptb.len() {
                            assert(kept@[i] == keptb[i]);
                            assert(entries_view(kept@)[i] == entries_view(keptb)[i]);
                        } else {
                            assert(entries_view(kept@)[i] == (tv, pv));
                        }
                    }
                    assert(entries_view(kept@) =~= filter_keep(origv.take(k + 1), keep));
                }
            } else {
                proof {
                    assert(entries_view(kept@) =~= filter_keep(origv.take(k + 1), keep));
                }
            }
        }
        proof {
            assert(origv.take(origv.len() as int) =~= origv);
        }
        let ghost keptv = entries_view(kept@);
        let mut total = Probability::zero();
        let mut i: usize = 0;
        proof {
            assert(keptv.take(0) =~= Seq::<(T, Ratio)>::empty());
        }
        while i < kept.len()
            invariant
                i <= kept@.len(),
                total@ == sum_probs(keptv.take(i as int)),
                sum_fits(keptv.take(i as int)),
            decreases kept@.len() - i,
        {
            let q = kept[i].1;
            proof {
                assert(keptv.take(i + 1).drop_last() =~= keptv.take(i as int));
                assert(keptv.take(i + 1).last() == keptv[i as int]);
                assert(keptv[i as int].1 == q@);
            }
            match total.checked_add(q) {
                Some(tt) => {
                    total = tt;
                },
                None => {
                    proof {
                        assert(!sum_fits(keptv.take(i + 1)));
                        if sum_fits(keptv) {
                            lemma_sum_fits_prefix(keptv, i + 1);
                        }
                        assert(!sum_fits(keptv));
                    }
                    return Err(DistributionError::Overflow);
                },
            }
            i += 1;
        }
        proof {
            assert(keptv.take(keptv.len() as int) =~= keptv);
        }
        if total.num() == 0 {
            return Err(DistributionError::NoMass);
        }
        let ghost totalv = total@;
        let mut rest2 = kept;
        let mut out: Vec<(T, Probability)> = Vec::new();
        proof {
            assert(entries_view(out@) =~= div_each(keptv.take(0), totalv));
        }
        while rest2.len() > 0
            invariant
                out@.len() + rest2@.len() == keptv.len(),
                entries_view(rest2@) == keptv.skip(out@.len() as int),
                forall|j: int| 0 <= j < out@.len() ==> rat_fits(rat_div(#[trigger] keptv[j].1, totalv)),
                entries_view(out@) == div_each(keptv.take(out@.len() as int), totalv),
            decreases rest2@.len(),
        {
            let ghost k2 = out@.len() as int;
            let ghost rest2v = entries_view(rest2@);
            let ghost rest2p = rest2@;
            let (t, q) = rest2.remove(0);
            let ghost tv = t;
            let ghost qv = q@;
            proof {
                assert(rest2v[0] == keptv[k2]);
                assert(rest2v[0] == (rest2p[0].0, rest2p[0].1@));
                assert forall|m: int|
                    0 <= m < rest2@.len() implies entries_view(rest2@)[m] == keptv.skip(
                    k2 + 1,
                )[m] by {
                    assert(rest2@[m] == rest2p[m + 1]);
                    assert(entries_view(rest2p)[m + 1] == keptv.skip(k2)[m + 1]);
                }
                assert(entries_view(rest2@) =~= keptv.skip(k2 + 1));
            }
            let ghost outb = out@;
            match q.checked_div(total) {
                Some(w) => {
                    out.push((t, w));
                    proof {
                        assert(out@.drop_last() =~= outb);
                        assert forall|m: int|
                            0 <= m < out@.len() implies entries_view(out@)[m] == div_each(
                            keptv.take(k2 + 1),
                            totalv,
                        )[m] by {
                            if m < outb.len() {
                                assert(out@[m] == outb[m]);
                                assert(entries_view(out@)[m] == entries_view(outb)[m]);
                                assert(entries_view(outb)[m] == div_each(keptv.take(k2), totalv)[m]);
                            } else {
                                assert(entries_view(out@)[m] == (tv, w@));
                                assert(keptv.take(k2 + 1)[m] == (tv, qv));
                            }
                        }
                        assert(entries_view(out@) =~= div_each(keptv.take(k2 + 1), totalv));
                    }
                },
                None => {
                    proof {
                        assert(!rat_fits(rat_div(keptv[k2].1, totalv)));
                        assert(!div_fits(keptv, totalv));
                    }
                    return Err(DistributionError::Overflow);
                },
            }
        }
        proof {
            assert(keptv.take(keptv.len() as int) =~= keptv);
            assert(div_fits(keptv, totalv));
            if unique_keys(origv) {
                lemma_filter_keep_unique(origv, keep);
                assert forall|a: int, b: int|
                    0 <= a < b < entries_view(out@).len() implies entries_view(out@)[a].0
                    != entries_view(out@)[b].0 by {
                    assert(div_each(keptv, totalv)[a].0 == keptv[a].0);
                    assert(div_each(keptv, totalv)[b].0 == keptv[b].0);
                }
            }
            assert(wf_entries(entries_view(out@))) by {
                assert(forall|m: int|
                    0 <= m < keptv.len() ==> div_each(keptv, totalv)[m].1 == rat_div(
                        #[trigger] keptv[m].1,
                        totalv,
                    ));
            }
        }
        Ok(Distribution(out))
    }
}

/// The identity experiment: hands the distribution back unchanged.
fn identity<U>(d: Distribution<U>) -> (r: Distribution<U>)
    ensures
        r == d,
{
    d
}

impl<T> Distribution<Distribution<T>> where T: PartialEq {
    /// Collapse a distribution over distributions — a first experiment
    /// choosing which second experiment to run — into a single
    /// distribution, weighting every inner outcome by the probability
    /// of its inner distribution.
    pub fn flatten(self) -> (r: Result<Distribution<T>, DistributionError>)
        requires
            obeys_concrete_eq::<T>(),
        ensures
            match r {
                Ok(d) => {
                    &&& bind_scale_fits(self@, flatten_views(self@))
                    &&& regroup_fits(bind_expand(self@, flatten_views(self@)))
                    &&& d@ == regroup(bind_expand(self@, flatten_views(self@)))
                    &&& unique_keys(d@)
                    &&& wf_entries(d@)
                },
                Err(e) => {
                    &&& e == DistributionError::Overflow
                    &&& exists|k: int|
                        {
                            &&& 0 <= k <= self@.len()
                            &&& !(bind_scale_fits(self@.take(k), flatten_views(self@.take(k)))
                                && regroup_fits(
                                bind_expand(self@.take(k), flatten_views(self@.take(k))),
                            ))
                        }
                },
            },
    {
        let ghost sv = self@;
        let r = self.and_then(identity);
        proof {
            match &r {
                Ok(d) => {
                    let inners = choose|inners: Seq<Distribution<T>>|
                        {
                            &&& inners.len() == sv.len()
                            &&& (forall|i: int|
                                0 <= i < sv.len() ==> #[trigger] inners[i] == sv[i].0)
                            &&& bind_scale_fits(sv, views_of(inners))
                            &&& regroup_fits(bind_expand(sv, views_of(inners)))
                            &&& d@ == regroup(bind_expand(sv, views_of(inners)))
                        };
                    assert(views_of(inners) =~= flatten_views(sv));
                },
                Err(_) => {
                    let inners = choose|inners: Seq<Distribution<T>>|
                        {
                            &&& inners.len() <= sv.len()
                            &&& (forall|i: int|
                                0 <= i < inners.len() ==> #[trigger] inners[i] == sv[i].0)
                            &&& !(bind_scale_fits(sv.take(inners.len() as int), views_of(inners))
                                && regroup_fits(
                                bind_expand(sv.take(inners.len() as int), views_of(inners)),
                            ))
                        };
                    let k = inners.len() as int;
                    assert(views_of(inners) =~= flatten_views(sv.take(k)));
                },
            }
        }
        r
    }
}


/// The view of a sequence of outcomes as uniformly weighted pairs: each
/// outcome carries `1 / n`, where `n` counts all outcomes, repeated
/// ones included.
pub open spec fn uniform_view<T>(s: Seq<T>) -> Seq<(T, Ratio)> {
    s.map_values(|t: T| (t, Ratio { num: 1, den: s.len() as int }))
}

/// The pairs re-labeled with new outcomes, probabilities kept.
pub open spec fn relabel<A, B>(us: Seq<B>, s: Seq<(A, Ratio)>) -> Seq<(B, Ratio)> {
    Seq::new(s.len(), |i: int| (us[i], s[i].1))
}

/// The mathematical values of a sequence of distributions.
pub open spec fn views_of<U>(ds: Seq<Distribution<U>>) -> Seq<Seq<(U, Ratio)>> {
    ds.map_values(|d: Distribution<U>| d@)
}

/// The inner values of a distribution over distributions.
pub open spec fn flatten_views<U>(s: Seq<(Distribution<U>, Ratio)>) -> Seq<Seq<(U, Ratio)>> {
    Seq::new(s.len(), |i: int| s[i].0@)
}

impl<T> Distribution<T> {
    /// Convert a distribution over `T` into one over `U` by mapping
    /// every outcome and regrouping, since distinct outcomes may map to
    /// equal ones, whose probabilities are then summed.
    #[verifier::loop_isolation(false)]
    pub fn map<U: PartialEq, F: Fn(T) -> U>(self, f: F) -> (r: Result<
        Distribution<U>,
        DistributionError,
    >)
        requires
            obeys_concrete_eq::<U>(),
            forall|i: int| 0 <= i < self@.len() ==> call_requires(f, (#[trigger] self@[i].0,)),
        ensures
            match r {
                Ok(d) => exists|us: Seq<U>|
                    {
                        &&& us.len() == self@.len()
                        &&& (forall|i: int|
                            0 <= i < self@.len() ==> call_ensures(
                                f,
                                (self@[i].0,),
                                #[trigger] us[i],
                            ))
                        &&& regroup_fits(relabel(us, self@))
                        &&& d@ == regroup(relabel(us, self@))
                        &&& unique_keys(d@)
                        &&& wf_entries(d@)
                    },
                Err(e) => {
                    &&& e == DistributionError::Overflow
                    &&& exists|us: Seq<U>|
                        {
                            &&& us.len() == self@.len()
                            &&& (forall|i: int|
                                0 <= i < self@.len() ==> call_ensures(
                                    f,
                                    (self@[i].0,),
                                    #[trigger] us[i],
                                ))
                            &&& !regroup_fits(relabel(us, self@))
                        }
                },
            },
    {
        let ghost origp = self.0@;
        let ghost origv = self@;
        let mut rest = self.0;
        let mut out: Vec<(U, Probability)> = Vec::new();
        let ghost mut us: Seq<U> = Seq::empty();
        proof {
            assert(entries_view(out@) =~= relabel(us, origv.take(0)));
        }
        while rest.len() > 0
            invariant
                us.len() == out@.len(),
                out@.len() + rest@.len() == origp.len(),
                rest@ == origp.skip(out@.len() as int),
                forall|i: int|
                    0 <= i < us.len() ==> call_ensures(f, (origp[i].0,), #[trigger] us[i]),
                entries_view(out@) == relabel(us, origv.take(us.len() as int)),
            decreases rest@.len(),
        {
            let ghost k = out@.len() as int;
            let ghost restv = rest@;
            let (t, p) = rest.remove(0);
            let ghost pv = p@;
            proof {
                assert(restv[0] == origp[k]);
                assert(rest@ =~= origp.skip(k + 1));
            }
            proof {
                assert(origv == self@);
                assert(origv[k] == (origp[k].0, origp[k].1@));
                assert(origv[k].0 == t);
                assert(call_requires(f, (self@[k].0,)));
            }
            let u = f(t);
            let ghost uv = u;
            let ghost outb = out@;
            let ghost usb = us;
            out.push((u, p));
            proof {
                us = us.push(uv);
                assert(origv.len() == origp.len());
                assert(out@.drop_last() =~= outb);
                assert(entries_view(out@)[k] == (uv, pv));
                assert forall|i: int| 0 <= i < k implies entries_view(out@)[i] == relabel(
                    us,
                    origv.take(k + 1),
                )[i] by {
                    assert(out@[i] == outb[i]);
                    assert(entries_view(out@)[i] == entries_view(outb)[i]);
                    assert(entries_view(outb)[i] == relabel(usb, origv.take(k))[i]);
                    assert(relabel(usb, origv.take(k))[i] == (usb[i], origv[i].1));
                    assert(us[i] == usb[i]);
                    assert(relabel(us, origv.take(k + 1))[i] == (us[i], origv[i].1));
                }
                assert(us[k] == uv);
                assert(origv.take(k + 1)[k].1 == pv);
                assert(relabel(us, origv.take(k + 1))[k] == (uv, pv));
                assert(entries_view(out@) =~= relabel(us, origv.take(k + 1)));
            }
        }
        proof {
            assert(origv.take(origv.len() as int) =~= origv);
        }
        match regroup_entries(out) {
            Ok(v) => Ok(Distribution(v)),
            Err(_) => Err(DistributionError::Overflow),
        }
    }

    /// Monadic bind: map every outcome to a whole distribution over
    /// `U`; each inner probability is weighted by the outer outcome's
    /// probability, and the emitted pairs are concatenated in order and
    /// regrouped.  An outcome's probability in the result is the sum,
    /// over all ways of reaching it, of the probability of the path.
    #[verifier::loop_isolation(false)]
    pub fn and_then<U: PartialEq, F: Fn(T) -> Distribution<U>>(self, f: F) -> (r: Result<
        Distribution<U>,
        DistributionError,
    >)
        requires
            obeys_concrete_eq::<U>(),
            forall|i: int| 0 <= i < self@.len() ==> call_requires(f, (#[trigger] self@[i].0,)),
        ensures
            match r {
                Ok(d) => exists|inners: Seq<Distribution<U>>|
                    {
                        &&& inners.len() == self@.len()
                        &&& (forall|i: int|
                            0 <= i < self@.len() ==> call_ensures(
                                f,
                                (self@[i].0,),
                                #[trigger] inners[i],
                            ))
                        &&& bind_scale_fits(self@, views_of(inners))
                        &&& regroup_fits(bind_expand(self@, views_of(inners)))
                        &&& d@ == regroup(bind_expand(self@, views_of(inners)))
                        &&& unique_keys(d@)
                        &&& wf_entries(d@)
                    },
                Err(e) => {
                    &&& e == DistributionError::Overflow
                    &&& exists|inners: Seq<Distribution<U>>|
                        {
                            &&& inners.len() <= self@.len()
                            &&& (forall|i: int|
                                0 <= i < inners.len() ==> call_ensures(
                                    f,
                                    (self@[i].0,),
                                    #[trigger] inners[i],
                                ))
                            &&& !(bind_scale_fits(
                                self@.take(inners.len() as int),
                                views_of(inners),
                            ) && regroup_fits(
                                bind_expand(self@.take(inners.len() as int), views_of(inners)),
                            ))
                        }
                },
            },
    {
        let ghost origp = self.0@;
        let ghost origv = self@;
        let mut rest = self.0;
        let mut out: Vec<(U, Probability)> = Vec::new();
        let ghost mut inners: Seq<Distribution<U>> = Seq::empty();
        proof {
            assert(origv.len() == origp.len());
            assert(entries_view(out@) =~= bind_expand(origv.take(0), views_of(inners)));
        }
        while rest.len() > 0
            invariant
                inners.len() + rest@.len() == origp.len(),
                rest@ == origp.skip(inners.len() as int),
                forall|i: int|
                    0 <= i < inners.len() ==> call_ensures(f, (origp[i].0,), #[trigger] inners[i]),
                bind_scale_fits(origv.take(inners.len() as int), views_of(inners)),
                entries_view(out@) == bind_expand(origv.take(inners.len() as int), views_of(inners)),
            decreases rest@.len(),
        {
            let ghost k = inners.len() as int;
            let ghost restv = rest@;
            let (t, p) = rest.remove(0);
            let ghost pv = p@;
            proof {
                assert(restv[0] == origp[k]);
                assert(rest@ =~= origp.skip(k + 1));
                assert(origv[k].1 == pv);
            }
            proof {
                assert(origv[k] == (origp[k].0, origp[k].1@));
                assert(call_requires(f, (self@[k].0,)));
            }
            let d = f(t);
            let ghost dg = d;
            let ghost dv = d@;
            let Distribution(mut dr) = d;
            let ghost drp = dr@;
            proof {
                assert(dv == entries_view(drp));
                assert(dv.len() == drp.len());
            }
            let ghost outv0 = entries_view(out@);
            while dr.len() > 0
                invariant
                    dr@.len() <= drp.len(),
                    dr@ == drp.skip(drp.len() - dr@.len()),
                    inners.len() == k,
                    forall|i: int|
                        0 <= i < k ==> call_ensures(f, (origp[i].0,), #[trigger] inners[i]),
                    bind_scale_fits(origv.take(k), views_of(inners)),
                    outv0 == bind_expand(origv.take(k), views_of(inners)),
                    forall|j: int|
                        0 <= j < drp.len() - dr@.len() ==> rat_fits(
                            rat_mul(pv, #[trigger] dv[j].1),
                        ),
                    entries_view(out@) == outv0 + scale(pv, dv.take(drp.len() - dr@.len())),
                decreases dr@.len(),
            {
                let ghost j = drp.len() - dr@.len();
                let ghost drv = dr@;
                let (u, p2) = dr.remove(0);
                proof {
                    assert(drv[0] == drp[j]);
                    assert(dr@ =~= drp.skip(j + 1));
                    assert(dv[j] == (drp[j].0, drp[j].1@));
                }
                match p.checked_mul(p2) {
                    Some(pr) => {
                        let ghost uv2 = u;
                        let ghost prv = pr@;
                        let ghost outb2 = out@;
                        out.push((u, pr));
                        proof {
                            assert(out@.drop_last() =~= outb2);
                            assert(scale(pv, dv.take(j + 1)) =~= scale(pv, dv.take(j)).push(
                                (dv[j].0, rat_mul(pv, dv[j].1)),
                            ));
                            assert(prv == rat_mul(pv, dv[j].1));
                            assert(dv[j].0 == uv2);
                            assert forall|i: int|
                                0 <= i < out@.len() implies entries_view(out@)[i] == (outv0
                                + scale(pv, dv.take(j + 1)))[i] by {
                                if i < outb2.len() {
                                    assert(out@[i] == outb2[i]);
                                    assert(entries_view(out@)[i] == entries_view(outb2)[i]);
                                    assert(entries_view(outb2)[i] == (outv0 + scale(
                                        pv,
                                        dv.take(j),
                                    ))[i]);
                                } else {
                                    assert(entries_view(out@)[i] == (uv2, prv));
                                }
                            }
                            assert(entries_view(out@) =~= outv0 + scale(pv, dv.take(j + 1)));
                        }
                    },
                    None => {
                        proof {
                            inners = inners.push(dg);
                            assert(inners[k] == dg);
                            assert(views_of(inners)[k] == dv);
                            assert(origv.take(k + 1)[k].1 == pv);
                            assert(!rat_fits(rat_mul(pv, dv[j].1)));
                            assert(!scale_fits(pv, dv));
                            assert(!bind_scale_fits(origv.take(k + 1), views_of(inners)));
                            assert(inners.len() <= origv.len());
                        }
                        return Err(DistributionError::Overflow);
                    },
                }
            }
            proof {
                assert(dv.take(drp.len() as int) =~= dv);
                let ghost innersb = inners;
                inners = inners.push(dg);
                assert(inners[k] == dg);
                assert(views_of(inners)[k] == dv);
                assert(inners.drop_last() =~= innersb);
                assert(views_of(inners).drop_last() =~= views_of(innersb));
                assert(views_of(inners) =~= views_of(innersb).push(dv));
                assert(origv.take(k + 1) =~= origv.take(k).push(origv[k]));
                assert(views_of(innersb).len() == k);
                lemma_bind_expand_snoc(origv.take(k), views_of(innersb), origv[k], dv);
                assert(entries_view(out@) == bind_expand(origv.take(k + 1), views_of(inners)));
                assert(bind_scale_fits(origv.take(k + 1), views_of(inners))) by {
                    assert(forall|i: int|
                        0 <= i < k ==> views_of(inners)[i] == views_of(innersb)[i]);
                    assert(scale_fits(origv.take(k + 1)[k].1, views_of(inners)[k]));
                }
            }
        }
        proof {
            assert(origv.take(origv.len() as int) =~= origv);
        }
        match regroup_entries(out) {
            Ok(v) => Ok(Distribution(v)),
            Err(_) => Err(DistributionError::Overflow),
        }
    }
}

/// The expected value of a sequence of weighted outcomes: the sum of
/// each outcome's numeric value times its probability, accumulated from
/// the front exactly as the executable code does.
pub open spec fn exp_sum<T: Copy>(s: Seq<(T, Ratio)>) -> Ratio where u64: From<T>
    decreases s.len(),
{
    if s.len() == 0 {
        rat_zero()
    } else {
        rat_add(
            exp_sum(s.drop_last()),
            rat_scale(u64::from_spec(s.last().0) as int, s.last().1),
        )
    }
}

/// Every term and partial sum of the expectation is representable.
pub open spec fn exp_fits<T: Copy>(s: Seq<(T, Ratio)>) -> bool where u64: From<T>
    decreases s.len(),
{
    if s.len() == 0 {
        true
    } else {
        &&& exp_fits(s.drop_last())
        &&& rat_fits(rat_scale(u64::from_spec(s.last().0) as int, s.last().1))
        &&& rat_fits(
            rat_add(
                exp_sum(s.drop_last()),
                rat_scale(u64::from_spec(s.last().0) as int, s.last().1),
            ),
        )
    }
}

/// A representable expectation is representable over every prefix.
proof fn lemma_exp_fits_prefix<T: Copy>(s: Seq<(T, Ratio)>, n: int) where u64: From<T>
    requires
        0 <= n <= s.len(),
        exp_fits(s),
    ensures
        exp_fits(s.take(n)),
    decreases s.len(),
{
    if n == s.len() {
        assert(s.take(n) =~= s);
    } else {
        assert(s.drop_last().take(n) =~= s.take(n));
        lemma_exp_fits_prefix(s.drop_last(), n);
    }
}

impl<T: Copy> Distribution<T> where u64: From<T> {
    /// The expectation of the random variable whose realization is the
    /// outcome itself: the sum over all pairs of the outcome's numeric
    /// value times its probability.  The result is an unnormalized
    /// rational scalar and may exceed 1.
    #[verifier::loop_isolation(false)]
    pub fn expectation(&self) -> (r: Probability)
        requires
            <u64 as vstd::std_specs::convert::FromSpec<T>>::obeys_from_spec(),
            exp_fits(self@),
        ensures
            r@ == exp_sum(self@),
    {
        let ghost sv = self@;
        let mut acc = Probability::zero();
        let mut i: usize = 0;
        proof {
            assert(sv.take(0) =~= Seq::<(T, Ratio)>::empty());
        }
        while i < self.0.len()
            invariant
                i <= sv.len(),
                acc@ == exp_sum(sv.take(i as int)),
            decreases sv.len() - i,
        {
            let t = self.0[i].0;
            let q = self.0[i].1;
            let v = u64::from(t);
            proof {
                assert(sv[i as int] == (self.0@[i as int].0, self.0@[i as int].1@));
                assert(sv.take(i + 1).drop_last() =~= sv.take(i as int));
                assert(sv.take(i + 1).last() == sv[i as int]);
                lemma_exp_fits_prefix(sv, i + 1);
            }
            let term = match q.checked_scale(v) {
                Some(x) => x,
                None => unreached(),
            };
            acc = match acc.checked_add(term) {
                Some(x) => x,
                None => unreached(),
            };
            i += 1;
        }
        proof {
            assert(sv.take(sv.len() as int) =~= sv);
        }
        acc
    }
}

/// One row of a convolution: a single outcome added to every outcome of
/// the other sequence, probabilities multiplied.
pub open spec fn cross_row<T: core::ops::Add<Output = T>>(e: (T, Ratio), b: Seq<(T, Ratio)>) -> Seq<
    (T, Ratio),
> {
    Seq::new(b.len(), |j: int| (e.0.add_spec(b[j].0), rat_mul(e.1, b[j].1)))
}

/// The full cross product of two sequences of weighted outcomes: every
/// pair of outcomes summed, their probabilities multiplied, row by row.
pub open spec fn cross<T: core::ops::Add<Output = T>>(a: Seq<(T, Ratio)>, b: Seq<(T, Ratio)>) -> Seq<
    (T, Ratio),
>
    decreases a.len(),
{
    if a.len() == 0 {
        Seq::empty()
    } else {
        cross_row(a[0], b) + cross(a.drop_first(), b)
    }
}

/// Appending one more outcome extends the cross product by its row.
proof fn lemma_cross_snoc<T: core::ops::Add<Output = T>>(
    a: Seq<(T, Ratio)>,
    b: Seq<(T, Ratio)>,
    e: (T, Ratio),
)
    ensures
        cross(a.push(e), b) == cross(a, b) + cross_row(e, b),
    decreases a.len(),
{
    if a.len() == 0 {
        assert(a.push(e).drop_first() =~= a);
        assert(cross(a.push(e), b) == cross_row(e, b) + cross(a, b));
        assert(cross_row(e, b) + Seq::<(T, Ratio)>::empty() =~= Seq::<(T, Ratio)>::empty()
            + cross_row(e, b));
    } else {
        assert(a.push(e).drop_first() =~= a.drop_first().push(e));
        lemma_cross_snoc(a.drop_first(), b, e);
        assert(cross_row(a[0], b) + (cross(a.drop_first(), b) + cross_row(e, b)) =~= (cross_row(
            a[0],
            b,
        ) + cross(a.drop_first(), b)) + cross_row(e, b));
    }
}

impl<T: Copy + PartialEq + core::ops::Add<Output = T>> Distribution<T> {
    /// The convolution of two independent random variables: the
    /// distribution of their sum, formed from the full cross product of
    /// outcome pairs with multiplied probabilities, regrouped since
    /// distinct pairs may sum to the same total.
    #[verifier::loop_isolation(false)]
    pub fn convolve(self, other: Distribution<T>) -> (r: Distribution<T>)
        requires
            obeys_concrete_eq::<T>(),
            T::obeys_add_spec(),
            forall|i: int, j: int|
                #![trigger self@[i].0.add_req(other@[j].0)]
                0 <= i < self@.len() && 0 <= j < other@.len() ==> self@[i].0.add_req(other@[j].0),
            forall|i: int, j: int|
                #![trigger rat_mul(self@[i].1, other@[j].1)]
                0 <= i < self@.len() && 0 <= j < other@.len() ==> rat_fits(
                    rat_mul(self@[i].1, other@[j].1),
                ),
            regroup_fits(cross(self@, other@)),
        ensures
            r@ == regroup(cross(self@, other@)),
            unique_keys(r@),
            wf_entries(r@),
    {
        let ghost sv = self@;
        let ghost ov = other@;
        let mut out: Vec<(T, Probability)> = Vec::new();
        let mut i: usize = 0;
        proof {
            assert(sv.take(0) =~= Seq::<(T, Ratio)>::empty());
            assert(entries_view(out@) =~= cross(sv.take(0), ov));
        }
        while i < self.0.len()
            invariant
                i <= sv.len(),
                entries_view(out@) == cross(sv.take(i as int), ov),
            decreases sv.len() - i,
        {
            let (t1, p1) = self.0[i];
            proof {
                assert(sv[i as int] == (self.0@[i as int].0, self.0@[i as int].1@));
            }
            let ghost rowv = cross_row(sv[i as int], ov);
            let ghost out0 = entries_view(out@);
            let mut j: usize = 0;
            proof {
                assert(out0 + rowv.take(0) =~= out0);
            }
            while j < other.0.len()
                invariant
                    j <= ov.len(),
                    entries_view(out@) == out0 + rowv.take(j as int),
                decreases ov.len() - j,
            {
                let (t2, p2) = other.0[j];
                proof {
                    assert(ov[j as int] == (other.0@[j as int].0, other.0@[j as int].1@));
                }
                let ghost outb = out@;
                proof {
                    assert(t1 == sv[i as int].0 && p1@ == sv[i as int].1);
                    assert(t2 == ov[j as int].0 && p2@ == ov[j as int].1);
                    assert(sv[i as int].0.add_req(ov[j as int].0));
                    assert(rat_fits(rat_mul(sv[i as int].1, ov[j as int].1)));
                }
                let u = t1 + t2;
                let w = p1 * p2;
                out.push((u, w));
                proof {
                    assert(u == t1.add_spec(t2));
                    Probability::lemma_from_ratio_view(rat_mul(sv[i as int].1, ov[j as int].1));
                    assert(w@ == rat_mul(sv[i as int].1, ov[j as int].1));
                    assert(out@.drop_last() =~= outb);
                    assert(rowv[j as int] == (sv[i as int].0.add_spec(ov[j as int].0), rat_mul(
                        sv[i as int].1,
                        ov[j as int].1,
                    )));
                    assert forall|m: int|
                        0 <= m < out@.len() implies entries_view(out@)[m] == (out0 + rowv.take(
                        j + 1,
                    ))[m] by {
                        if m < outb.len() {
                            assert(out@[m] == outb[m]);
                            assert(entries_view(out@)[m] == entries_view(outb)[m]);
                            assert(entries_view(outb)[m] == (out0 + rowv.take(j as int))[m]);
                        } else {
                            assert(entries_view(out@)[m] == (u, w@));
                        }
                    }
                    assert(entries_view(out@) =~= out0 + rowv.take(j + 1));
                }
                j += 1;
            }
            proof {
                assert(rowv.take(ov.len() as int) =~= rowv);
                assert(sv.take(i + 1) =~= sv.take(i as int).push(sv[i as int]));
                lemma_cross_snoc(sv.take(i as int), ov, sv[i as int]);
            }
            i += 1;
        }
        proof {
            assert(sv.take(sv.len() as int) =~= sv);
        }
        match regroup_entries(out) {
            Ok(v) => Distribution(v),
            Err(_) => unreached(),
        }
    }
}

impl<T: PartialEq> PartialEq for Distribution<T> {
    /// Two distributions are equal when they list pairwise equal
    /// outcomes in the same order, with probabilities denoting the same
    /// rational numbers.
    #[verifier::loop_isolation(false)]
    fn eq(&self, other: &Self) -> (r: bool) {
        if self.0.len() != other.0.len() {
            return false;
        }
        let mut i: usize = 0;
        while i < self.0.len()
            invariant
                i <= self@.len(),
                self@.len() == other@.len(),
                T::obeys_eq_spec() ==> forall|j: int|
                    0 <= j < i ==> (#[trigger] self@[j].0).eq_spec(&other@[j].0),
                forall|j: int| 0 <= j < i ==> rat_eq(#[trigger] self@[j].1, other@[j].1),
            decreases self@.len() - i,
        {
            proof {
                assert(self@[i as int] == (self.0@[i as int].0, self.0@[i as int].1@));
                assert(other@[i as int] == (other.0@[i as int].0, other.0@[i as int].1@));
            }
            let same_outcome = self.0[i].0 == other.0[i].0;
            let same_probability = self.0[i].1 == other.0[i].1;
            if !(same_outcome && same_probability) {
                proof {
                    if T::obeys_eq_spec() {
                        if !same_outcome {
                            assert(!(self@[i as int].0).eq_spec(&other@[i as int].0));
                        } else {
                            assert(!rat_eq(self@[i as int].1, other@[i as int].1));
                        }
                    }
                }
                return false;
            }
            i += 1;
        }
        true
    }
}

impl<T: PartialEq> vstd::std_specs::cmp::PartialEqSpecImpl for Distribution<T> {
    open spec fn obeys_eq_spec() -> bool {
        T::obeys_eq_spec()
    }

    open spec fn eq_spec(&self, other: &Self) -> bool {
        &&& self@.len() == other@.len()
        &&& (forall|j: int|
            0 <= j < self@.len() ==> (#[trigger] self@[j].0).eq_spec(&other@[j].0))
        &&& (forall|j: int| 0 <= j < self@.len() ==> rat_eq(#[trigger] self@[j].1, other@[j].1))
    }
}

} // verus!
