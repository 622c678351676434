use vstd::prelude::*;

use crate::records::Listing;
use crate::round_div;

verus! {

/// Most entries the revenue ranking keeps.
pub const TOP_K: usize = 10;

/// Most listings that the sample scans.
pub const SAMPLE_SCAN: usize = 100;

/// Occupancy written in ten-thousandths.
pub const FULL_OCCUPANCY: u64 = 10000;

/// Revenue statistics of one listing. `occupancy_rate` is in ten-thousandths
/// (10000 is a full year), the two amounts in cents.
#[derive(Clone, Copy, PartialEq, Eq, Structural)]
pub struct TopRevenueListing {
    pub id: u64,
    pub occupancy_rate: u64,
    pub avg_price: u32,
    pub annual_revenue: u32,
}

/// Share of the year booked for a revenue over a nightly price, capped at a
/// full year and rounded to a ten-thousandth. A zero price counts as full.
pub open spec fn occupancy(revenue: int, price: int) -> int {
    if price == 0 {
        FULL_OCCUPANCY as int
    } else {
        let r = round_div(revenue * FULL_OCCUPANCY, price * 365);
        if r < FULL_OCCUPANCY { r } else { FULL_OCCUPANCY as int }
    }
}

/// The ranking entry of `l`, when it has both a revenue and a price.
pub open spec fn revenue_entry(l: Listing) -> Option<TopRevenueListing> {
    match (l.estimated_revenue_l365d, l.price) {
        (Some(rev), Some(p)) => Some(
            TopRevenueListing {
                id: l.id,
                occupancy_rate: occupancy(rev as int, p as int) as u64,
                avg_price: p,
                annual_revenue: rev,
            },
        ),
        _ => None,
    }
}

/// The entries are in non-increasing order of annual revenue.
pub open spec fn sorted_by_revenue_desc(r: Seq<TopRevenueListing>) -> bool {
    forall|i: int, j: int| 0 <= i <= j < r.len() ==> r[i].annual_revenue >= r[j].annual_revenue
}

/// `e` is one of the entries in `r`.
pub open spec fn ranked(r: Seq<TopRevenueListing>, e: TopRevenueListing) -> bool {
    exists|k: int| 0 <= k < r.len() && r[k] == e
}

/// Each entry of `r` is the ranking entry of some listing of `s`.
pub open spec fn entries_of(r: Seq<TopRevenueListing>, s: Seq<Listing>) -> bool {
    forall|k: int| 0 <= k < r.len() ==> exists|j: int|
        0 <= j < s.len() && revenue_entry(s[j]) == Some(#[trigger] r[k])
}

/// The ranking entry of a listing, if it has a revenue and a price.
pub fn revenue_entry_of(l: &Listing) -> (r: Option<TopRevenueListing>)
    ensures
        r == revenue_entry(*l),
{
    match (l.estimated_revenue_l365d, l.price) {
        (Some(rev), Some(p)) => {
            let occ: u64 = if p == 0 {
                FULL_OCCUPANCY
            } else {
                let a = (rev as u64) * FULL_OCCUPANCY;
                let b = (p as u64) * 365;
                let q = (2 * a + b) / (2 * b);
                assert(q == round_div(rev as int * FULL_OCCUPANCY, p as int * 365));
                if q < FULL_OCCUPANCY { q } else { FULL_OCCUPANCY }
            };
            Some(TopRevenueListing { id: l.id, occupancy_rate: occ, avg_price: p, annual_revenue: rev })
        },
        _ => None,
    }
}

/// Inserts `e` after every entry whose revenue is at least its own, then keeps
/// the first `TOP_K` entries.
fn insert_ranked(out: &mut Vec<TopRevenueListing>, e: TopRevenueListing) -> (pos: usize)
    requires
        sorted_by_revenue_desc(old(out)@),
        old(out).len() <= TOP_K,
    ensures
        pos <= old(out).len(),
        forall|k: int| 0 <= k < pos ==> old(out)@[k].annual_revenue >= e.annual_revenue,
        pos < old(out).len() ==> old(out)@[pos as int].annual_revenue < e.annual_revenue,
        final(out)@ == old(out)@.insert(pos as int, e).take(
            if old(out).len() < TOP_K { old(out).len() + 1 } else { TOP_K as int },
        ),
        sorted_by_revenue_desc(final(out)@),
{
    let mut pos: usize = 0;
    while pos < out.len() && out[pos].annual_revenue >= e.annual_revenue
        invariant
            pos <= out.len(),
            forall|k: int| 0 <= k < pos ==> out@[k].annual_revenue >= e.annual_revenue,
        decreases out.len() - pos,
    {
        pos = pos + 1;
    }
    let ghost prev = out@;
    out.insert(pos, e);
    assert forall|i: int, j: int| 0 <= i <= j < out.len() implies out@[i].annual_revenue >= out@[j].annual_revenue by {
        if i < pos && j > pos {
            assert(prev[i].annual_revenue >= prev[j - 1].annual_revenue);
        } else if i > pos {
            assert(prev[i - 1].annual_revenue >= prev[j - 1].annual_revenue);
        } else if i == pos && j > pos {
            assert(prev[pos as int].annual_revenue < e.annual_revenue);
            assert(prev[pos as int].annual_revenue >= prev[j - 1].annual_revenue);
        }
    }
    let ghost ins = out@;
    out.truncate(TOP_K);
    assert(out@ =~= ins.take(if prev.len() < TOP_K { prev.len() + 1 as int } else { TOP_K as int }));
    pos
}

/// The listings with the highest annual revenue, at most `TOP_K` of them, in
/// non-increasing order of revenue. Every listing with both a revenue and a
/// price either stands in the result, or the result is full and ends in a
/// revenue at least as high as its own.
pub fn calculate_top_revenue_listings(listings: &[Listing]) -> (r: Vec<TopRevenueListing>)
    ensures
        r.len() <= TOP_K,
        sorted_by_revenue_desc(r@),
        entries_of(r@, listings@),
        forall|k: int| 0 <= k < r.len() ==> (#[trigger] r@[k]).occupancy_rate <= FULL_OCCUPANCY,
        forall|i: int| 0 <= i < listings.len() && (#[trigger] revenue_entry(listings@[i])) is Some
            ==> ranked(r@, revenue_entry(listings@[i]).unwrap()) || (r.len() == TOP_K
                && revenue_entry(listings@[i]).unwrap().annual_revenue <= r@[TOP_K - 1].annual_revenue),
{
    let mut out: Vec<TopRevenueListing> = Vec::new();
    let mut i: usize = 0;
    while i < listings.len()
        invariant
            i <= listings.len(),
            out.len() <= TOP_K,
            sorted_by_revenue_desc(out@),
            entries_of(out@, listings@),
            forall|j: int| 0 <= j < i && (#[trigger] revenue_entry(listings@[j])) is Some
                ==> ranked(out@, revenue_entry(listings@[j]).unwrap()) || (out.len() == TOP_K
                    && revenue_entry(listings@[j]).unwrap().annual_revenue <= out@[TOP_K - 1].annual_revenue),
        decreases listings.len() - i,
    {
        match revenue_entry_of(&listings[i]) {
            Some(e) => {
                let ghost prev = out@;
                let pos = insert_ranked(&mut out, e);
                let ghost n = if prev.len() < TOP_K { prev.len() + 1 as int } else { TOP_K as int };
                assert forall|k: int| 0 <= k < out.len() implies exists|j: int|
                    0 <= j < listings@.len() && revenue_entry(listings@[j]) == Some(#[trigger] out@[k]) by {
                    if k < pos {
                        assert(out@[k] == prev[k]);
                    } else if k > pos {
                        assert(out@[k] == prev[k - 1]);
                    } else {
                        assert(revenue_entry(listings@[i as int]) == Some(out@[k]));
                    }
                }
                assert forall|j: int| 0 <= j <= i && (#[trigger] revenue_entry(listings@[j])) is Some
                    implies ranked(out@, revenue_entry(listings@[j]).unwrap()) || (out.len() == TOP_K
                        && revenue_entry(listings@[j]).unwrap().annual_revenue <= out@[TOP_K - 1].annual_revenue) by {
                    let x = revenue_entry(listings@[j]).unwrap();
                    if j == i {
                        if pos < n {
                            assert(out@[pos as int] == x);
                        } else {
                            assert(prev.len() == TOP_K && pos == TOP_K);
                            assert(out@ =~= prev);
                            assert(prev[TOP_K - 1].annual_revenue >= e.annual_revenue);
                        }
                    } else if ranked(prev, x) {
                        let k = choose|k: int| 0 <= k < prev.len() && prev[k] == x;
                        if k < pos {
                            assert(out@[k] == x);
                        } else if k + 1 < n {
                            assert(out@[k + 1] == x);
                        } else {
                            assert(prev.len() == TOP_K && k == TOP_K - 1);
                            if pos < TOP_K - 1 {
                                assert(out@[TOP_K - 1] == prev[TOP_K - 2]);
                            } else {
                                assert(out@[TOP_K - 1] == e);
                            }
                            assert(x.annual_revenue <= out@[TOP_K - 1].annual_revenue);
                        }
                    } else {
                        assert(prev.len() == TOP_K);
                        if pos < TOP_K - 1 {
                            assert(out@[TOP_K - 1] == prev[TOP_K - 2]);
                        } else if pos == TOP_K - 1 {
                            assert(out@[TOP_K - 1] == e);
                        } else {
                            assert(out@ =~= prev);
                        }
                    }
                }
            },
            None => {},
        }
        i = i + 1;
    }
    out
}

/// A bounded preview of one listing: price and capacity rounded to whole units
/// (kept in cents and hundredths).
pub struct SampleListing {
    pub id: u64,
    pub name: String,
    pub neighbourhood: String,
    pub price: u64,
    pub accommodates: u64,
    pub room_type: String,
}

/// The listings of `s` that have both a price and a capacity, in order.
pub open spec fn sampleable(s: Seq<Listing>) -> Seq<Listing>
    decreases s.len(),
{
    if s.len() == 0 {
        Seq::empty()
    } else if s.last().price is Some && s.last().accommodates is Some {
        sampleable(s.drop_last()).push(s.last())
    } else {
        sampleable(s.drop_last())
    }
}

/// `e` previews the listing `l`; an absent name reads `Unknown`.
pub open spec fn previews(e: SampleListing, l: Listing) -> bool {
    &&& e.id == l.id
    &&& match l.name {
        Some(n) => e.name@ == n@,
        None => e.name@ == "Unknown"@,
    }
    &&& e.neighbourhood@ == l.neighbourhood_cleansed@
    &&& e.room_type@ == l.room_type@
    &&& l.price is Some && e.price == round_div(l.price.unwrap() as int, 100) * 100
    &&& l.accommodates is Some && e.accommodates == round_div(l.accommodates.unwrap() as int, 100) * 100
}

/// Previews of the listings among the first `SAMPLE_SCAN` that have a price
/// and a capacity, in their order.
pub fn calculate_sample_listings(listings: &[Listing]) -> (r: Vec<SampleListing>)
    ensures
        r.len() == sampleable(listings@.take(
            if listings.len() < SAMPLE_SCAN { listings.len() as int } else { SAMPLE_SCAN as int },
        )).len(),
        r.len() <= SAMPLE_SCAN,
        forall|k: int| 0 <= k < r.len() ==> previews(#[trigger] r@[k], sampleable(listings@.take(
            if listings.len() < SAMPLE_SCAN { listings.len() as int } else { SAMPLE_SCAN as int },
        ))[k]),
{
    let n = if listings.len() < SAMPLE_SCAN { listings.len() } else { SAMPLE_SCAN };
    let mut out: Vec<SampleListing> = Vec::new();
    let mut i: usize = 0;
    while i < n
        invariant
            i <= n,
            n <= listings.len(),
            n <= SAMPLE_SCAN,
            out.len() == sampleable(listings@.take(i as int)).len(),
            out.len() <= i,
            forall|k: int| 0 <= k < out.len() ==> previews(#[trigger] out@[k], sampleable(listings@.take(i as int))[k]),
        decreases n - i,
    {
        assert(listings@.take(i + 1).drop_last() =~= listings@.take(i as int));
        let l = &listings[i];
        match (l.price, l.accommodates) {
            (Some(p), Some(a)) => {
                let name = match &l.name {
                    Some(s) => s.clone(),
                    None => "Unknown".to_string(),
                };
                out.push(SampleListing {
                    id: l.id,
                    name,
                    neighbourhood: l.neighbourhood_cleansed.clone(),
                    price: ((2 * (p as u64) + 100) / 200) * 100,
                    accommodates: ((2 * (a as u64) + 100) / 200) * 100,
                    room_type: l.room_type.clone(),
                });
            },
            _ => {},
        }
        i = i + 1;
    }
    out
}

} // verus!
