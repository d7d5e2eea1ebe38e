use porco::Distribution;
use porco::DistributionError;
use porco::Probability;

#[derive(Debug, Clone, Copy, PartialEq)]
enum Coin {
    Heads,
    Tails,
}

fn flip() -> Distribution<Coin> {
    Distribution::uniform(vec![Coin::Heads, Coin::Tails]).unwrap()
}

fn prob(num: u64, den: u64) -> Probability {
    Probability::new(num, den).unwrap()
}

#[test]
fn biased_coin_pmf() {
    let biased = Distribution::new(vec![(Coin::Heads, prob(3, 4)), (Coin::Tails, prob(1, 4))]);
    assert_eq!(biased.pmf(&Coin::Heads), prob(3, 4));
    assert_eq!(biased.pmf(&Coin::Tails), prob(1, 4));
}

#[test]
fn new_merges_repeated_outcomes() {
    let d = Distribution::new(vec![
        (1u64, prob(1, 4)),
        (2u64, prob(1, 4)),
        (1u64, prob(1, 2)),
    ]);
    assert_eq!(d.pmf(&1), prob(3, 4));
    assert_eq!(d.pmf(&2), prob(1, 4));
}

#[test]
fn always_is_certain() {
    let rigged = Distribution::always(Coin::Heads);
    assert_eq!(rigged.pmf(&Coin::Heads), Probability::one());
    assert_eq!(rigged.pmf(&Coin::Tails), Probability::zero());
}

#[test]
fn pmf_of_absent_outcome_is_exactly_zero() {
    let fair = flip();
    let d = fair.map(|c| matches!(c, Coin::Heads)).unwrap();
    let die = Distribution::uniform(vec![1u64, 2, 3, 4, 5, 6]).unwrap();
    assert_eq!(die.pmf(&7), Probability::zero());
    assert_eq!(d.pmf(&true), prob(1, 2));
}

#[test]
fn uniform_splits_mass_evenly() {
    let die = Distribution::uniform(vec![1u64, 2, 3, 4, 5, 6]).unwrap();
    for v in 1u64..=6 {
        assert_eq!(die.pmf(&v), prob(1, 6));
    }
}

#[test]
fn uniform_merges_duplicates() {
    let d = Distribution::uniform(vec![1u64, 1, 2]).unwrap();
    assert_eq!(d.pmf(&1), prob(2, 3));
    assert_eq!(d.pmf(&2), prob(1, 3));
}

#[test]
fn uniform_of_nothing_is_rejected() {
    let r = Distribution::<u64>::uniform(Vec::new());
    assert_eq!(r.unwrap_err(), DistributionError::NoMass);
}

#[test]
fn map_regroups_collapsed_outcomes() {
    let dist = Distribution::uniform(vec![0u64, 1, 2, 3])
        .unwrap()
        .map(|v| if v == 3 { Coin::Heads } else { Coin::Tails })
        .unwrap();
    assert_eq!(dist.pmf(&Coin::Heads), prob(1, 4));
    assert_eq!(dist.pmf(&Coin::Tails), prob(3, 4));
}

#[test]
fn map_reports_unrepresentable_sums() {
    let big = 1u64 << 40;
    let d = Distribution::new(vec![
        (1u64, prob(1, big)),
        (2u64, prob(1, big - 1)),
    ]);
    let r = d.map(|_| 0u64);
    assert_eq!(r.unwrap_err(), DistributionError::Overflow);
}

fn reflip_if_tails(coin: Coin) -> Distribution<Coin> {
    match coin {
        Coin::Heads => Distribution::always(Coin::Heads),
        Coin::Tails => flip(),
    }
}

#[test]
fn reflip_on_tails_favours_heads() {
    let coin = flip().and_then(reflip_if_tails).unwrap();
    assert_eq!(coin.pmf(&Coin::Heads), prob(3, 4));
    assert_eq!(coin.pmf(&Coin::Tails), prob(1, 4));
}

#[test]
fn and_then_builds_joint_distributions() {
    let dist = flip()
        .and_then(|coin| match coin {
            Coin::Heads => Distribution::uniform(vec![Some(1u64), Some(2), Some(3), Some(4)])
                .unwrap(),
            Coin::Tails => Distribution::always(None),
        })
        .unwrap();
    assert_eq!(dist.pmf(&None), prob(1, 2));
    assert_eq!(dist.pmf(&Some(2)), prob(1, 8));
}

#[test]
fn flatten_collapses_nested_experiments() {
    let nested: Distribution<Distribution<Coin>> = flip().map(reflip_if_tails).unwrap();
    let coin = nested.flatten().unwrap();
    assert_eq!(coin.pmf(&Coin::Heads), prob(3, 4));
    assert_eq!(coin.pmf(&Coin::Tails), prob(1, 4));
}

#[test]
fn bind_agrees_with_map_then_flatten() {
    let via_bind = flip().and_then(reflip_if_tails).unwrap();
    let via_flatten = flip().map(reflip_if_tails).unwrap().flatten().unwrap();
    assert_eq!(via_bind.pmf(&Coin::Heads), via_flatten.pmf(&Coin::Heads));
    assert_eq!(via_bind.pmf(&Coin::Tails), via_flatten.pmf(&Coin::Tails));
    assert_eq!(via_bind, via_flatten);
}

#[test]
fn given_renormalizes_retained_outcomes() {
    let die = Distribution::uniform(vec![1u64, 2, 3, 4, 5, 6]).unwrap();
    let low = die.given(|v| *v < 3).unwrap();
    assert_eq!(low.pmf(&1), prob(1, 2));
    assert_eq!(low.pmf(&2), prob(1, 2));
    assert_eq!(low.pmf(&5), Probability::zero());
    let total = low.pmf(&1).checked_add(low.pmf(&2)).unwrap();
    assert_eq!(total, Probability::one());
}

#[test]
fn given_nothing_retained_is_rejected() {
    let die = Distribution::uniform(vec![1u64, 2, 3]).unwrap();
    let r = die.given(|v| *v > 10);
    assert_eq!(r.unwrap_err(), DistributionError::NoMass);
}

#[test]
fn mass_is_conserved_through_combinators() {
    let start = flip();
    let mapped = start.map(|c| matches!(c, Coin::Heads)).unwrap();
    let total = mapped
        .pmf(&true)
        .checked_add(mapped.pmf(&false))
        .unwrap();
    assert_eq!(total, Probability::one());

    let chained = flip().and_then(reflip_if_tails).unwrap();
    let total = chained
        .pmf(&Coin::Heads)
        .checked_add(chained.pmf(&Coin::Tails))
        .unwrap();
    assert_eq!(total, Probability::one());
}

#[test]
fn convolve_of_two_sided_dice() {
    let x = Distribution::uniform(vec![1u64, 2]).unwrap();
    let y = Distribution::uniform(vec![1u64, 2]).unwrap();
    let sum = x.convolve(y);
    assert_eq!(sum.pmf(&2), prob(1, 4));
    assert_eq!(sum.pmf(&3), prob(1, 2));
    assert_eq!(sum.pmf(&4), prob(1, 4));
}

#[test]
fn conditional_expectation_of_a_die() {
    let die = Distribution::uniform(vec![1u32, 2, 3, 4, 5, 6]).unwrap();
    let ev = die.given(|v| *v <= 4).unwrap().expectation();
    // the expectation is exactly 5/2
    assert_eq!(ev.num() * 2, ev.den() * 5);
}

#[test]
fn expectation_weights_outcomes() {
    let biased = Distribution::new(vec![(1u32, prob(1, 4)), (0u32, prob(3, 4))]);
    let ev = biased.expectation();
    assert_eq!(ev.num() * 4, ev.den());
}
