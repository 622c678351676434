use vstd::prelude::*;

use crate::cleaning::{
    entries_in_bounds, entry_in_bounds, entry_prices, entry_valid, first_valid_entries,
    first_valid_listings, has_entry_key, has_listing_id, listing_prices, listing_valid,
    listings_in_bounds,
};
use crate::records::{CalendarEntry, Listing};
use crate::ranking::sampleable;
use crate::stats::{in_bounds, iqr_of_sorted, is_sorted_form, retained, IqrBounds};

verus! {

proof fn lemma_first_valid_listings(s: Seq<Listing>)
    ensures
        forall|i: int| 0 <= i < first_valid_listings(s).len() ==> listing_valid(
            #[trigger] first_valid_listings(s)[i],
        ),
        forall|i: int, j: int|
            0 <= i < j < first_valid_listings(s).len() ==> #[trigger] first_valid_listings(s)[i].id
                != #[trigger] first_valid_listings(s)[j].id,
    decreases s.len(),
{
    if s.len() > 0 {
        lemma_first_valid_listings(s.drop_last());
        let p = first_valid_listings(s.drop_last());
        if listing_valid(s.last()) && !has_listing_id(p, s.last().id) {
            let r = p.push(s.last());
            assert forall|i: int, j: int| 0 <= i < j < r.len() implies r[i].id != r[j].id by {
                if j == r.len() - 1 {
                    assert(p[i] == r[i]);
                } else {
                    assert(p[i] == r[i] && p[j] == r[j]);
                }
            }
        }
    }
}

proof fn lemma_listings_in_bounds(s: Seq<Listing>, b: Option<IqrBounds>)
    ensures
        forall|i: int| 0 <= i < listings_in_bounds(s, b).len() ==> {
            &&& exists|k: int| 0 <= k < s.len() && s[k] == #[trigger] listings_in_bounds(s, b)[i]
            &&& listings_in_bounds(s, b)[i].price is Some
            &&& retained(b, listings_in_bounds(s, b)[i].price.unwrap() as int)
        },
        (forall|i: int, j: int| 0 <= i < j < s.len() ==> #[trigger] s[i].id != #[trigger] s[j].id)
            ==> forall|i: int, j: int|
            0 <= i < j < listings_in_bounds(s, b).len() ==> #[trigger] listings_in_bounds(s, b)[i].id
                != #[trigger] listings_in_bounds(s, b)[j].id,
    decreases s.len(),
{
    if s.len() > 0 {
        let d = s.drop_last();
        lemma_listings_in_bounds(d, b);
        let p = listings_in_bounds(d, b);
        let r = listings_in_bounds(s, b);
        assert forall|i: int| 0 <= i < r.len() implies exists|k: int| 0 <= k < s.len() && s[k] == #[trigger] r[i] by {
            if i < p.len() {
                let k = choose|k: int| 0 <= k < d.len() && d[k] == p[i];
                assert(s[k] == r[i]);
            } else {
                assert(s[s.len() - 1] == r[i]);
            }
        }
        if forall|i: int, j: int| 0 <= i < j < s.len() ==> #[trigger] s[i].id != #[trigger] s[j].id {
            assert forall|i: int, j: int| 0 <= i < j < d.len() implies #[trigger] d[i].id != #[trigger] d[j].id by {
                assert(s[i] == d[i] && s[j] == d[j]);
            }
            assert forall|i: int, j: int| 0 <= i < j < r.len() implies r[i].id != r[j].id by {
                if j < p.len() {
                    assert(p[i] == r[i] && p[j] == r[j]);
                } else {
                    let k = choose|k: int| 0 <= k < d.len() && d[k] == p[i];
                    assert(s[k] == r[i]);
                    assert(r[j] == s[s.len() - 1]);
                }
            }
        }
    }
}

/// Every cleaned listing has a positive price, and that price lies within
/// `[q1 - 1.5 * iqr, q3 + 1.5 * iqr]` of the price column after validation
/// and deduplication. No two cleaned listings share an identifier.
pub proof fn cleaned_listings_are_valid(listings: Seq<Listing>, t: Seq<u32>)
    requires
        is_sorted_form(t, listing_prices(first_valid_listings(listings))),
    ensures
        forall|i: int|
            0 <= i < listings_in_bounds(first_valid_listings(listings), iqr_of_sorted(t)).len()
                ==> {
                let l = #[trigger] listings_in_bounds(
                    first_valid_listings(listings),
                    iqr_of_sorted(t),
                )[i];
                &&& listing_valid(l)
                &&& l.price is Some && l.price.unwrap() > 0
                &&& iqr_of_sorted(t) is Some
                &&& in_bounds(iqr_of_sorted(t).unwrap(), l.price.unwrap() as int)
            },
        forall|i: int, j: int|
            0 <= i < j < listings_in_bounds(first_valid_listings(listings), iqr_of_sorted(t)).len()
                ==> #[trigger] listings_in_bounds(first_valid_listings(listings), iqr_of_sorted(t))[i].id
                != #[trigger] listings_in_bounds(first_valid_listings(listings), iqr_of_sorted(t))[j].id,
{
    let v = first_valid_listings(listings);
    let b = iqr_of_sorted(t);
    lemma_first_valid_listings(listings);
    lemma_listings_in_bounds(v, b);
    let r = listings_in_bounds(v, b);
    assert forall|i: int| 0 <= i < r.len() implies listing_valid(#[trigger] r[i]) by {
        let k = choose|k: int| 0 <= k < v.len() && v[k] == r[i];
    }
}

proof fn lemma_first_valid_entries(s: Seq<CalendarEntry>)
    ensures
        forall|i: int| 0 <= i < first_valid_entries(s).len() ==> entry_valid(
            #[trigger] first_valid_entries(s)[i],
        ),
        forall|i: int, j: int|
            0 <= i < j < first_valid_entries(s).len() ==> !(#[trigger] first_valid_entries(s)[i].listing_id
                == #[trigger] first_valid_entries(s)[j].listing_id && first_valid_entries(s)[i].date
                == first_valid_entries(s)[j].date),
    decreases s.len(),
{
    if s.len() > 0 {
        lemma_first_valid_entries(s.drop_last());
        let p = first_valid_entries(s.drop_last());
        if entry_valid(s.last()) && !has_entry_key(p, s.last().listing_id, s.last().date) {
            let r = p.push(s.last());
            assert forall|i: int, j: int| 0 <= i < j < r.len() implies !(r[i].listing_id
                == r[j].listing_id && r[i].date == r[j].date) by {
                if j == r.len() - 1 {
                    assert(p[i] == r[i]);
                } else {
                    assert(p[i] == r[i] && p[j] == r[j]);
                }
            }
        }
    }
}

proof fn lemma_entries_in_bounds(s: Seq<CalendarEntry>, b: Option<IqrBounds>)
    ensures
        forall|i: int| 0 <= i < entries_in_bounds(s, b).len() ==> {
            &&& exists|k: int| 0 <= k < s.len() && s[k] == #[trigger] entries_in_bounds(s, b)[i]
            &&& entry_in_bounds(entries_in_bounds(s, b)[i], b)
        },
        (forall|i: int, j: int|
            0 <= i < j < s.len() ==> !(#[trigger] s[i].listing_id == #[trigger] s[j].listing_id
                && s[i].date == s[j].date)) ==> forall|i: int, j: int|
            0 <= i < j < entries_in_bounds(s, b).len() ==> !(
            #[trigger] entries_in_bounds(s, b)[i].listing_id
                == #[trigger] entries_in_bounds(s, b)[j].listing_id
                && entries_in_bounds(s, b)[i].date == entries_in_bounds(s, b)[j].date),
    decreases s.len(),
{
    if s.len() > 0 {
        let d = s.drop_last();
        lemma_entries_in_bounds(d, b);
        let p = entries_in_bounds(d, b);
        let r = entries_in_bounds(s, b);
        assert forall|i: int| 0 <= i < r.len() implies exists|k: int| 0 <= k < s.len() && s[k] == #[trigger] r[i] by {
            if i < p.len() {
                let k = choose|k: int| 0 <= k < d.len() && d[k] == p[i];
                assert(s[k] == r[i]);
            } else {
                assert(s[s.len() - 1] == r[i]);
            }
        }
        if forall|i: int, j: int|
            0 <= i < j < s.len() ==> !(#[trigger] s[i].listing_id == #[trigger] s[j].listing_id
                && s[i].date == s[j].date) {
            assert forall|i: int, j: int| 0 <= i < j < d.len() implies !(
            #[trigger] d[i].listing_id == #[trigger] d[j].listing_id && d[i].date == d[j].date) by {
                assert(s[i] == d[i] && s[j] == d[j]);
            }
            assert forall|i: int, j: int| 0 <= i < j < r.len() implies !(r[i].listing_id
                == r[j].listing_id && r[i].date == r[j].date) by {
                if j < p.len() {
                    assert(p[i] == r[i] && p[j] == r[j]);
                } else {
                    let k = choose|k: int| 0 <= k < d.len() && d[k] == p[i];
                    assert(s[k] == r[i]);
                    assert(r[j] == s[s.len() - 1]);
                }
            }
        }
    }
}

/// Every cleaned calendar entry has a positive price and adjusted price, both
/// within the quartile bounds of the price column after validation and
/// deduplication. No two cleaned entries share a (listing, date) pair.
pub proof fn cleaned_calendar_is_valid(calendar: Seq<CalendarEntry>, t: Seq<u32>)
    requires
        is_sorted_form(t, entry_prices(first_valid_entries(calendar))),
    ensures
        forall|i: int|
            0 <= i < entries_in_bounds(first_valid_entries(calendar), iqr_of_sorted(t)).len()
                ==> {
                let c = #[trigger] entries_in_bounds(first_valid_entries(calendar), iqr_of_sorted(t))[i];
                &&& entry_valid(c)
                &&& entry_in_bounds(c, iqr_of_sorted(t))
            },
        forall|i: int, j: int|
            0 <= i < j < entries_in_bounds(first_valid_entries(calendar), iqr_of_sorted(t)).len()
                ==> !(#[trigger] entries_in_bounds(first_valid_entries(calendar), iqr_of_sorted(t))[i].listing_id
                == #[trigger] entries_in_bounds(first_valid_entries(calendar), iqr_of_sorted(t))[j].listing_id
                && entries_in_bounds(first_valid_entries(calendar), iqr_of_sorted(t))[i].date
                == entries_in_bounds(first_valid_entries(calendar), iqr_of_sorted(t))[j].date),
{
    let v = first_valid_entries(calendar);
    let b = iqr_of_sorted(t);
    lemma_first_valid_entries(calendar);
    lemma_entries_in_bounds(v, b);
    let r = entries_in_bounds(v, b);
    assert forall|i: int| 0 <= i < r.len() implies entry_valid(#[trigger] r[i]) by {
        let k = choose|k: int| 0 <= k < v.len() && v[k] == r[i];
    }
}

/// An empty price column has no bounds, and then the filter rejects every
/// listing and every calendar entry.
pub proof fn empty_column_rejects_all(listings: Seq<Listing>, calendar: Seq<CalendarEntry>)
    ensures
        iqr_of_sorted(Seq::<u32>::empty()) is None,
        listings_in_bounds(listings, iqr_of_sorted(Seq::<u32>::empty())).len() == 0,
        entries_in_bounds(calendar, iqr_of_sorted(Seq::<u32>::empty())).len() == 0,
    decreases listings.len() + calendar.len(),
{
    if listings.len() > 0 {
        empty_column_rejects_all(listings.drop_last(), calendar);
    }
    if calendar.len() > 0 {
        empty_column_rejects_all(listings, calendar.drop_last());
    }
}

/// The listings a sample is drawn from keep the order in which the listings
/// came: position `k` stands for input position `pos[k]`, and the positions
/// strictly increase. Each of them has a price and a capacity.
pub proof fn sample_keeps_listing_order(s: Seq<Listing>) -> (pos: Seq<int>)
    ensures
        pos.len() == sampleable(s).len(),
        sampleable(s).len() <= s.len(),
        forall|k: int| 0 <= k < pos.len() ==> 0 <= #[trigger] pos[k] < s.len() && sampleable(s)[k] == s[pos[k]],
        forall|k: int, m: int| 0 <= k < m < pos.len() ==> #[trigger] pos[k] < #[trigger] pos[m],
        forall|k: int|
            0 <= k < sampleable(s).len() ==> (#[trigger] sampleable(s)[k]).price is Some
                && sampleable(s)[k].accommodates is Some,
    decreases s.len(),
{
    if s.len() == 0 {
        Seq::empty()
    } else {
        let d = s.drop_last();
        let p = sample_keeps_listing_order(d);
        if s.last().price is Some && s.last().accommodates is Some {
            let q = p.push(s.len() - 1);
            assert forall|k: int| 0 <= k < q.len() implies 0 <= #[trigger] q[k] < s.len() && sampleable(s)[k] == s[q[k]] by {
                if k < p.len() {
                    assert(d[p[k]] == s[p[k]]);
                }
            }
            assert forall|k: int| 0 <= k < sampleable(s).len() implies (#[trigger] sampleable(s)[k]).price is Some
                && sampleable(s)[k].accommodates is Some by {
                if k < p.len() {
                    assert(sampleable(s)[k] == sampleable(d)[k]);
                }
            }
            q
        } else {
            assert forall|k: int| 0 <= k < p.len() implies 0 <= #[trigger] p[k] < s.len() && sampleable(s)[k] == s[p[k]] by {
                assert(d[p[k]] == s[p[k]]);
            }
            p
        }
    }
}

} // verus!
