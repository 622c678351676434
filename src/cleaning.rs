use vstd::prelude::*;

use std::collections::HashSet;

use crate::records::{CalendarEntry, Listing};
use crate::stats::{iqr_bounds, iqr_of_sorted, is_retained, is_sorted_form, retained, IqrBounds};

verus! {

broadcast use vstd::std_specs::hash::group_hash_axioms;

/// Hundredths in one night.
pub const NIGHT: u32 = 100;

/// Longest allowed maximum stay, in hundredths of a night.
pub const MAX_STAY: u32 = 36500;

/// A listing that passes validation: a positive price, a positive capacity,
/// bedrooms and bathrooms given, a minimum stay of at least one night and a
/// maximum stay of at most 365 nights. A missing minimum stay counts as 0 and
/// a missing maximum stay as 366 nights, so both fail.
pub open spec fn listing_valid(l: Listing) -> bool {
    &&& match l.price {
        Some(p) => p > 0,
        None => false,
    }
    &&& match l.accommodates {
        Some(a) => a > 0,
        None => false,
    }
    &&& l.bedrooms is Some
    &&& l.bathrooms is Some
    &&& match l.minimum_nights {
        Some(m) => m >= NIGHT,
        None => false,
    }
    &&& match l.maximum_nights {
        Some(m) => m <= MAX_STAY,
        None => false,
    }
}

/// Some listing of `s` has identifier `id`.
pub open spec fn has_listing_id(s: Seq<Listing>, id: u64) -> bool {
    exists|j: int| 0 <= j < s.len() && s[j].id == id
}

/// The valid listings of `s` in order, each identifier kept at its first
/// occurrence among them.
pub open spec fn first_valid_listings(s: Seq<Listing>) -> Seq<Listing>
    decreases s.len(),
{
    if s.len() == 0 {
        Seq::empty()
    } else {
        let p = first_valid_listings(s.drop_last());
        if listing_valid(s.last()) && !has_listing_id(p, s.last().id) {
            p.push(s.last())
        } else {
            p
        }
    }
}

/// The prices that the listings of `s` carry, in order.
pub open spec fn listing_prices(s: Seq<Listing>) -> Seq<u32>
    decreases s.len(),
{
    if s.len() == 0 {
        Seq::empty()
    } else {
        match s.last().price {
            Some(p) => listing_prices(s.drop_last()).push(p),
            None => listing_prices(s.drop_last()),
        }
    }
}

/// The listings of `s` whose price `b` retains, in order.
pub open spec fn listings_in_bounds(s: Seq<Listing>, b: Option<IqrBounds>) -> Seq<Listing>
    decreases s.len(),
{
    if s.len() == 0 {
        Seq::empty()
    } else {
        let p = listings_in_bounds(s.drop_last(), b);
        match s.last().price {
            Some(x) => if retained(b, x as int) {
                p.push(s.last())
            } else {
                p
            },
            None => p,
        }
    }
}

/// The listings after validation and deduplication by identifier.
pub fn validate_listings(listings: Vec<Listing>) -> (r: Vec<Listing>)
    ensures
        r@ == first_valid_listings(listings@),
{
    let ghost all = listings@;
    let mut out: Vec<Listing> = Vec::new();
    let mut seen: HashSet<u64> = HashSet::new();
    for l in it: listings.into_iter()
        invariant
            it.seq() == all,
            out@ == first_valid_listings(all.take(it.index() as int)),
            forall|k: u64| seen@.contains(k) <==> has_listing_id(out@, k),
    {
        let ghost i = it.index();
        assert(all.take(i + 1).drop_last() =~= all.take(i as int));
        assert(l == all[i as int]);
        if is_valid_listing(&l) {
            let id = l.id;
            let ghost prev = out@;
            if seen.insert(id) {
                out.push(l);
                assert forall|k: u64| seen@.contains(k) <==> has_listing_id(out@, k) by {
                    if has_listing_id(out@, k) && k != id {
                        let j = choose|j: int| 0 <= j < out@.len() && out@[j].id == k;
                        assert(prev[j].id == k);
                    }
                    if has_listing_id(prev, k) {
                        let j = choose|j: int| 0 <= j < prev.len() && prev[j].id == k;
                        assert(out@[j].id == k);
                    }
                    if k == id {
                        assert(out@[out@.len() - 1].id == k);
                    }
                }
            }
        }
    }
    assert(all.take(all.len() as int) =~= all);
    out
}

/// Whether a listing passes validation.
pub fn is_valid_listing(l: &Listing) -> (r: bool)
    ensures
        r == listing_valid(*l),
{
    let price_ok = match l.price {
        Some(p) => p > 0,
        None => false,
    };
    let capacity_ok = match l.accommodates {
        Some(a) => a > 0,
        None => false,
    };
    let min_ok = match l.minimum_nights {
        Some(m) => m >= NIGHT,
        None => false,
    };
    let max_ok = match l.maximum_nights {
        Some(m) => m <= MAX_STAY,
        None => false,
    };
    price_ok && capacity_ok && l.bedrooms.is_some() && l.bathrooms.is_some() && min_ok && max_ok
}

/// The price column of a sequence of listings.
pub fn price_column(listings: &Vec<Listing>) -> (r: Vec<u32>)
    ensures
        r@ == listing_prices(listings@),
{
    let mut out: Vec<u32> = Vec::new();
    let mut i: usize = 0;
    while i < listings.len()
        invariant
            i <= listings.len(),
            out@ == listing_prices(listings@.take(i as int)),
        decreases listings.len() - i,
    {
        assert(listings@.take(i + 1).drop_last() =~= listings@.take(i as int));
        match listings[i].price {
            Some(p) => out.push(p),
            None => {},
        }
        i = i + 1;
    }
    assert(listings@.take(listings.len() as int) =~= listings@);
    out
}

/// Keeps the listings whose price `b` retains.
pub fn filter_listings_by_price(listings: Vec<Listing>, b: &Option<IqrBounds>) -> (r: Vec<Listing>)
    ensures
        r@ == listings_in_bounds(listings@, *b),
{
    let ghost all = listings@;
    let mut out: Vec<Listing> = Vec::new();
    for l in it: listings.into_iter()
        invariant
            it.seq() == all,
            out@ == listings_in_bounds(all.take(it.index() as int), *b),
    {
        let ghost i = it.index();
        assert(all.take(i + 1).drop_last() =~= all.take(i as int));
        assert(l == all[i as int]);
        let keep = match l.price {
            Some(x) => is_retained(b, x),
            None => false,
        };
        if keep {
            out.push(l);
        }
    }
    assert(all.take(all.len() as int) =~= all);
    out
}

/// The cleaned listings: validated, deduplicated by identifier, then kept
/// where the price lies within the quartile bounds of the price column of
/// the deduplicated listings.
pub fn clean_listings(listings: Vec<Listing>) -> (r: Vec<Listing>)
    ensures
        exists|t: Seq<u32>|
            is_sorted_form(t, listing_prices(first_valid_listings(listings@)))
                && r@ == listings_in_bounds(first_valid_listings(listings@), iqr_of_sorted(t)),
{
    let valid = validate_listings(listings);
    let prices = price_column(&valid);
    let b = iqr_bounds(prices.as_slice());
    filter_listings_by_price(valid, &b)
}

/// A calendar entry that passes validation: both prices present and positive.
pub open spec fn entry_valid(c: CalendarEntry) -> bool {
    &&& match c.price {
        Some(p) => p > 0,
        None => false,
    }
    &&& match c.adjusted_price {
        Some(p) => p > 0,
        None => false,
    }
}

/// Some entry of `s` is for listing `id` on day `date`.
pub open spec fn has_entry_key(s: Seq<CalendarEntry>, id: u64, date: u32) -> bool {
    exists|j: int| 0 <= j < s.len() && s[j].listing_id == id && s[j].date == date
}

/// The valid entries of `s` in order, each (listing, date) pair kept at its
/// first occurrence among them.
pub open spec fn first_valid_entries(s: Seq<CalendarEntry>) -> Seq<CalendarEntry>
    decreases s.len(),
{
    if s.len() == 0 {
        Seq::empty()
    } else {
        let p = first_valid_entries(s.drop_last());
        if entry_valid(s.last()) && !has_entry_key(p, s.last().listing_id, s.last().date) {
            p.push(s.last())
        } else {
            p
        }
    }
}

/// The prices (not the adjusted ones) that the entries of `s` carry, in order.
pub open spec fn entry_prices(s: Seq<CalendarEntry>) -> Seq<u32>
    decreases s.len(),
{
    if s.len() == 0 {
        Seq::empty()
    } else {
        match s.last().price {
            Some(p) => entry_prices(s.drop_last()).push(p),
            None => entry_prices(s.drop_last()),
        }
    }
}

/// `b` retains both the price and the adjusted price of `c`.
pub open spec fn entry_in_bounds(c: CalendarEntry, b: Option<IqrBounds>) -> bool {
    match (c.price, c.adjusted_price) {
        (Some(p), Some(a)) => retained(b, p as int) && retained(b, a as int),
        _ => false,
    }
}

/// The entries of `s` whose two prices `b` retains, in order.
pub open spec fn entries_in_bounds(s: Seq<CalendarEntry>, b: Option<IqrBounds>) -> Seq<CalendarEntry>
    decreases s.len(),
{
    if s.len() == 0 {
        Seq::empty()
    } else if entry_in_bounds(s.last(), b) {
        entries_in_bounds(s.drop_last(), b).push(s.last())
    } else {
        entries_in_bounds(s.drop_last(), b)
    }
}

/// The (listing, date) pair as one number.
pub open spec fn entry_key(id: u64, date: u32) -> u128 {
    (id as int * 0x1_0000_0000 + date as int) as u128
}

proof fn lemma_entry_key_injective(id1: u64, d1: u32, id2: u64, d2: u32)
    requires
        entry_key(id1, d1) == entry_key(id2, d2),
    ensures
        id1 == id2 && d1 == d2,
{
    assert(id1 as int * 0x1_0000_0000 + d1 as int <= u128::MAX) by (nonlinear_arith)
        requires id1 <= u64::MAX, d1 <= u32::MAX;
    assert(id2 as int * 0x1_0000_0000 + d2 as int <= u128::MAX) by (nonlinear_arith)
        requires id2 <= u64::MAX, d2 <= u32::MAX;
    assert(id1 == id2 && d1 == d2) by (nonlinear_arith)
        requires
            id1 as int * 0x1_0000_0000 + d1 as int == id2 as int * 0x1_0000_0000 + d2 as int,
            0 <= d1 < 0x1_0000_0000,
            0 <= d2 < 0x1_0000_0000,
    ;
}

fn key_of(id: u64, date: u32) -> (r: u128)
    ensures
        r == entry_key(id, date),
{
    assert(id as int * 0x1_0000_0000 + date as int <= u128::MAX) by (nonlinear_arith)
        requires id <= u64::MAX, date <= u32::MAX;
    (id as u128) * 0x1_0000_0000 + (date as u128)
}

/// Whether a calendar entry passes validation.
pub fn is_valid_entry(c: &CalendarEntry) -> (r: bool)
    ensures
        r == entry_valid(*c),
{
    let price_ok = match c.price {
        Some(p) => p > 0,
        None => false,
    };
    let adjusted_ok = match c.adjusted_price {
        Some(p) => p > 0,
        None => false,
    };
    price_ok && adjusted_ok
}

/// The calendar after validation and deduplication by (listing, date).
pub fn validate_calendar(calendar: Vec<CalendarEntry>) -> (r: Vec<CalendarEntry>)
    ensures
        r@ == first_valid_entries(calendar@),
{
    let ghost all = calendar@;
    let mut out: Vec<CalendarEntry> = Vec::new();
    let mut seen: HashSet<u128> = HashSet::new();
    for c in it: calendar.into_iter()
        invariant
            it.seq() == all,
            out@ == first_valid_entries(all.take(it.index() as int)),
            forall|id: u64, d: u32| seen@.contains(entry_key(id, d)) <==> has_entry_key(out@, id, d),
            forall|k: u128| seen@.contains(k) ==> exists|id: u64, d: u32| k == entry_key(id, d),
    {
        let ghost i = it.index();
        assert(all.take(i + 1).drop_last() =~= all.take(i as int));
        assert(c == all[i as int]);
        if is_valid_entry(&c) {
            let id = c.listing_id;
            let date = c.date;
            let key = key_of(id, date);
            let ghost prev = out@;
            let ghost prev_seen = seen@;
            if seen.insert(key) {
                out.push(c);
                assert forall|id2: u64, d2: u32|
                    seen@.contains(entry_key(id2, d2)) <==> has_entry_key(out@, id2, d2) by {
                    if entry_key(id2, d2) == key {
                        lemma_entry_key_injective(id2, d2, id, date);
                        assert(out@[out@.len() - 1].listing_id == id2);
                    } else {
                        if has_entry_key(out@, id2, d2) {
                            let j = choose|j: int|
                                0 <= j < out@.len() && out@[j].listing_id == id2 && out@[j].date == d2;
                            assert(prev[j].listing_id == id2);
                        }
                        if has_entry_key(prev, id2, d2) {
                            let j = choose|j: int|
                                0 <= j < prev.len() && prev[j].listing_id == id2 && prev[j].date == d2;
                            assert(out@[j].listing_id == id2);
                        }
                    }
                }
            } else {
                assert(has_entry_key(prev, id, date));
            }
        }
    }
    assert(all.take(all.len() as int) =~= all);
    out
}

/// The price column of a sequence of calendar entries.
pub fn calendar_price_column(entries: &Vec<CalendarEntry>) -> (r: Vec<u32>)
    ensures
        r@ == entry_prices(entries@),
{
    let mut out: Vec<u32> = Vec::new();
    let mut i: usize = 0;
    while i < entries.len()
        invariant
            i <= entries.len(),
            out@ == entry_prices(entries@.take(i as int)),
        decreases entries.len() - i,
    {
        assert(entries@.take(i + 1).drop_last() =~= entries@.take(i as int));
        match entries[i].price {
            Some(p) => out.push(p),
            None => {},
        }
        i = i + 1;
    }
    assert(entries@.take(entries.len() as int) =~= entries@);
    out
}

/// Keeps the entries whose price and adjusted price `b` both retain.
pub fn filter_entries_by_price(entries: Vec<CalendarEntry>, b: &Option<IqrBounds>) -> (r: Vec<CalendarEntry>)
    ensures
        r@ == entries_in_bounds(entries@, *b),
{
    let ghost all = entries@;
    let mut out: Vec<CalendarEntry> = Vec::new();
    for c in it: entries.into_iter()
        invariant
            it.seq() == all,
            out@ == entries_in_bounds(all.take(it.index() as int), *b),
    {
        let ghost i = it.index();
        assert(all.take(i + 1).drop_last() =~= all.take(i as int));
        assert(c == all[i as int]);
        let keep = match (c.price, c.adjusted_price) {
            (Some(p), Some(a)) => is_retained(b, p) && is_retained(b, a),
            _ => false,
        };
        if keep {
            out.push(c);
        }
    }
    assert(all.take(all.len() as int) =~= all);
    out
}

/// The cleaned calendar: validated, deduplicated by (listing, date), then
/// kept where both prices lie within the quartile bounds of the price column
/// of the deduplicated entries.
pub fn clean_calendar(calendar: Vec<CalendarEntry>) -> (r: Vec<CalendarEntry>)
    ensures
        exists|t: Seq<u32>|
            is_sorted_form(t, entry_prices(first_valid_entries(calendar@)))
                && r@ == entries_in_bounds(first_valid_entries(calendar@), iqr_of_sorted(t)),
{
    let valid = validate_calendar(calendar);
    let prices = calendar_price_column(&valid);
    let b = iqr_bounds(prices.as_slice());
    filter_entries_by_price(valid, &b)
}

/// Cleans both tables, each on its own.
pub fn preprocess_data(listings: Vec<Listing>, calendar: Vec<CalendarEntry>) -> (r: (
    Vec<Listing>,
    Vec<CalendarEntry>,
))
    ensures
        exists|t: Seq<u32>|
            is_sorted_form(t, listing_prices(first_valid_listings(listings@)))
                && r.0@ == listings_in_bounds(first_valid_listings(listings@), iqr_of_sorted(t)),
        exists|t: Seq<u32>|
            is_sorted_form(t, entry_prices(first_valid_entries(calendar@)))
                && r.1@ == entries_in_bounds(first_valid_entries(calendar@), iqr_of_sorted(t)),
{
    (clean_listings(listings), clean_calendar(calendar))
}

} // verus!
