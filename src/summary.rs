use vstd::prelude::*;

use crate::cleaning::{listing_prices, price_column};
use crate::records::Listing;
use crate::regression::{simple_linear_regression, LinearModel};
use crate::round_div;
use crate::stats::{is_sorted_form, mean_rounded, median_of_sorted, round_to_unit, seq_sum, sort_ascending};

verus! {

/// Overall figures over the cleaned listings. `avg_price` is the mean price
/// in cents rounded to the cent, `median_price` the median in cents rounded
/// to whole units; both are `None` when there are no prices. `model` is the
/// fit of price on capacity, when one exists.
pub struct AnalyticsSummary {
    pub total_listings: usize,
    pub cleaned_listings: usize,
    pub avg_price: Option<u128>,
    pub median_price: Option<u64>,
    pub model: Option<LinearModel>,
}

/// The capacities of the listings of `s` that have both a capacity and a
/// price, in order.
pub open spec fn paired_capacities(s: Seq<Listing>) -> Seq<u32>
    decreases s.len(),
{
    if s.len() == 0 {
        Seq::empty()
    } else if s.last().accommodates is Some && s.last().price is Some {
        paired_capacities(s.drop_last()).push(s.last().accommodates.unwrap())
    } else {
        paired_capacities(s.drop_last())
    }
}

/// The prices of the same listings, in the same order.
pub open spec fn paired_prices(s: Seq<Listing>) -> Seq<u32>
    decreases s.len(),
{
    if s.len() == 0 {
        Seq::empty()
    } else if s.last().accommodates is Some && s.last().price is Some {
        paired_prices(s.drop_last()).push(s.last().price.unwrap())
    } else {
        paired_prices(s.drop_last())
    }
}

proof fn lemma_paired_lengths(s: Seq<Listing>)
    ensures
        paired_capacities(s).len() == paired_prices(s).len(),
    decreases s.len(),
{
    if s.len() > 0 {
        lemma_paired_lengths(s.drop_last());
    }
}

/// Capacity and price of each listing that has both, taken in one pass so
/// that position `i` of the two columns is the same listing.
pub fn regression_inputs(listings: &Vec<Listing>) -> (r: (Vec<u32>, Vec<u32>))
    ensures
        r.0@ == paired_capacities(listings@),
        r.1@ == paired_prices(listings@),
{
    let mut xs: Vec<u32> = Vec::new();
    let mut ys: Vec<u32> = Vec::new();
    let mut i: usize = 0;
    while i < listings.len()
        invariant
            i <= listings.len(),
            xs@ == paired_capacities(listings@.take(i as int)),
            ys@ == paired_prices(listings@.take(i as int)),
        decreases listings.len() - i,
    {
        assert(listings@.take(i + 1).drop_last() =~= listings@.take(i as int));
        match (listings[i].accommodates, listings[i].price) {
            (Some(a), Some(p)) => {
                xs.push(a);
                ys.push(p);
            },
            _ => {},
        }
        i = i + 1;
    }
    assert(listings@.take(listings.len() as int) =~= listings@);
    (xs, ys)
}

/// The overall figures of a cleaned listing set.
pub fn summarize(cleaned: &Vec<Listing>) -> (r: AnalyticsSummary)
    ensures
        r.total_listings == cleaned.len(),
        r.cleaned_listings == cleaned.len(),
        listing_prices(cleaned@).len() == 0 ==> r.avg_price is None && r.median_price is None,
        listing_prices(cleaned@).len() > 0 ==> r.avg_price == Some(
            round_div(seq_sum(listing_prices(cleaned@)), listing_prices(cleaned@).len() as int) as u128,
        ),
        listing_prices(cleaned@).len() > 0 ==> exists|t: Seq<u32>|
            is_sorted_form(t, listing_prices(cleaned@)) && r.median_price == Some(
                (round_div(t[(t.len() / 2) as int] as int, 100) * 100) as u64,
            ),
        r.model is Some ==> simple_linear_regression_holds(
            paired_capacities(cleaned@),
            paired_prices(cleaned@),
            r.model.unwrap(),
        ),
{
    let prices = price_column(cleaned);
    let avg = mean_rounded(prices.as_slice());
    let median = if prices.len() > 0 {
        let mut sorted = prices.clone();
        assert(sorted@ == prices@);
        sort_ascending(&mut sorted);
        proof {
            assert(sorted@.to_multiset().len() == prices@.to_multiset().len());
            sorted@.to_multiset_ensures();
            prices@.to_multiset_ensures();
        }
        Some(round_to_unit(median_of_sorted(&sorted)))
    } else {
        None
    };
    let (xs, ys) = regression_inputs(cleaned);
    proof {
        lemma_paired_lengths(cleaned@);
    }
    let model = simple_linear_regression(xs.as_slice(), ys.as_slice());
    AnalyticsSummary {
        total_listings: cleaned.len(),
        cleaned_listings: cleaned.len(),
        avg_price: avg,
        median_price: median,
        model,
    }
}

/// `m` is the rounded least-squares fit of `y` on `x`.
pub open spec fn simple_linear_regression_holds(x: Seq<u32>, y: Seq<u32>, m: LinearModel) -> bool {
    &&& crate::regression::denominator(x) > 0
    &&& m.slope == round_div(100 * crate::regression::slope_numerator(x, y), crate::regression::denominator(x))
    &&& m.intercept == round_div(crate::regression::intercept_numerator(x, y), crate::regression::denominator(x))
}

} // verus!
