use vstd::prelude::*;

use crate::records::Listing;
use crate::round_div;
use crate::stats::{mean_rounded, round_to_unit, seq_sum};

verus! {

/// Which label listings are grouped by.
#[derive(Clone, Copy, PartialEq, Eq, Structural)]
pub enum GroupBy {
    Neighbourhood,
    RoomType,
}

/// The label of `l` that `by` selects.
pub open spec fn label_of(l: Listing, by: GroupBy) -> Seq<char> {
    match by {
        GroupBy::Neighbourhood => l.neighbourhood_cleansed@,
        GroupBy::RoomType => l.room_type@,
    }
}

/// The prices of the listings of `s` whose label is `label`, in order.
pub open spec fn prices_with_label(s: Seq<Listing>, by: GroupBy, label: Seq<char>) -> Seq<u32>
    decreases s.len(),
{
    if s.len() == 0 {
        Seq::empty()
    } else {
        let p = prices_with_label(s.drop_last(), by, label);
        match s.last().price {
            Some(x) => if label_of(s.last(), by) == label {
                p.push(x)
            } else {
                p
            },
            None => p,
        }
    }
}

/// Some listing of `s` with a price has label `label`.
pub open spec fn label_occurs(s: Seq<Listing>, by: GroupBy, label: Seq<char>) -> bool {
    exists|i: int| 0 <= i < s.len() && s[i].price is Some && label_of(s[i], by) == label
}

/// Smallest value of a non-empty sequence.
pub open spec fn seq_min(s: Seq<u32>) -> int
    decreases s.len(),
{
    if s.len() <= 1 {
        s[0] as int
    } else {
        let m = seq_min(s.drop_last());
        if s.last() < m { s.last() as int } else { m }
    }
}

/// Largest value of a non-empty sequence.
pub open spec fn seq_max(s: Seq<u32>) -> int
    decreases s.len(),
{
    if s.len() <= 1 {
        s[0] as int
    } else {
        let m = seq_max(s.drop_last());
        if s.last() > m { s.last() as int } else { m }
    }
}

/// The prices of the listings that share one label.
pub struct PriceGroup {
    pub label: String,
    pub prices: Vec<u32>,
}

fn label_ref(l: &Listing, by: GroupBy) -> (r: &String)
    ensures
        r@ == label_of(*l, by),
{
    match by {
        GroupBy::Neighbourhood => &l.neighbourhood_cleansed,
        GroupBy::RoomType => &l.room_type,
    }
}

/// The distinct labels of the listings that have a price, in order of first
/// appearance.
pub fn distinct_labels(listings: &[Listing], by: GroupBy) -> (r: Vec<String>)
    ensures
        forall|g: int, h: int| 0 <= g < h < r.len() ==> r@[g]@ != r@[h]@,
        forall|g: int| 0 <= g < r.len() ==> label_occurs(listings@, by, #[trigger] r@[g]@),
        forall|i: int|
            0 <= i < listings.len() && (#[trigger] listings@[i]).price is Some ==> exists|g: int|
                0 <= g < r.len() && r@[g]@ == label_of(listings@[i], by),
{
    let mut labels: Vec<String> = Vec::new();
    let mut i: usize = 0;
    while i < listings.len()
        invariant
            i <= listings.len(),
            forall|g: int, h: int| 0 <= g < h < labels.len() ==> labels@[g]@ != labels@[h]@,
            forall|g: int| 0 <= g < labels.len() ==> label_occurs(listings@, by, #[trigger] labels@[g]@),
            forall|k: int|
                0 <= k < i && (#[trigger] listings@[k]).price is Some ==> exists|g: int|
                    0 <= g < labels.len() && labels@[g]@ == label_of(listings@[k], by),
        decreases listings.len() - i,
    {
        if listings[i].price.is_some() {
            let label = label_ref(&listings[i], by);
            let mut found = false;
            let mut g: usize = 0;
            while g < labels.len()
                invariant
                    g <= labels.len(),
                    label@ == label_of(listings@[i as int], by),
                    found ==> exists|h: int| 0 <= h < labels.len() && labels@[h]@ == label@,
                    !found ==> forall|h: int| 0 <= h < g ==> labels@[h]@ != label@,
                decreases labels.len() - g,
            {
                if labels[g] == *label {
                    found = true;
                }
                g = g + 1;
            }
            if !found {
                let ghost prev = labels@;
                labels.push(label.clone());
                assert(label_occurs(listings@, by, label@)) by {
                    assert(listings@[i as int].price is Some);
                }
                assert forall|k: int|
                    0 <= k <= i && (#[trigger] listings@[k]).price is Some implies exists|g: int|
                        0 <= g < labels.len() && labels@[g]@ == label_of(listings@[k], by) by {
                    if k < i {
                        let g = choose|g: int| 0 <= g < prev.len() && prev[g]@ == label_of(listings@[k], by);
                        assert(labels@[g] == prev[g]);
                    } else {
                        assert(labels@[labels.len() - 1]@ == label@);
                    }
                }
            }
        }
        i = i + 1;
    }
    labels
}

/// The prices of the listings labelled `label`, in order.
pub fn prices_for_label(listings: &[Listing], by: GroupBy, label: &String) -> (r: Vec<u32>)
    ensures
        r@ == prices_with_label(listings@, by, label@),
{
    let mut out: Vec<u32> = Vec::new();
    let mut i: usize = 0;
    while i < listings.len()
        invariant
            i <= listings.len(),
            out@ == prices_with_label(listings@.take(i as int), by, label@),
        decreases listings.len() - i,
    {
        assert(listings@.take(i + 1).drop_last() =~= listings@.take(i as int));
        match listings[i].price {
            Some(x) => {
                if *label_ref(&listings[i], by) == *label {
                    out.push(x);
                }
            },
            None => {},
        }
        i = i + 1;
    }
    assert(listings@.take(listings.len() as int) =~= listings@);
    out
}

proof fn lemma_label_occurs_nonempty(s: Seq<Listing>, by: GroupBy, label: Seq<char>)
    requires
        label_occurs(s, by, label),
    ensures
        prices_with_label(s, by, label).len() > 0,
    decreases s.len(),
{
    let i = choose|i: int| 0 <= i < s.len() && s[i].price is Some && label_of(s[i], by) == label;
    if i < s.len() - 1 {
        assert(s.drop_last()[i] == s[i]);
        lemma_label_occurs_nonempty(s.drop_last(), by, label);
    }
}

/// Listings grouped by label, each group holding the prices of the listings
/// with that label in order; one group per label that some priced listing
/// carries, in order of first appearance.
pub fn group_prices(listings: &[Listing], by: GroupBy) -> (r: Vec<PriceGroup>)
    ensures
        forall|g: int, h: int| 0 <= g < h < r.len() ==> r@[g].label@ != r@[h].label@,
        forall|g: int|
            0 <= g < r.len() ==> (#[trigger] r@[g]).prices@ == prices_with_label(listings@, by, r@[g].label@)
                && r@[g].prices.len() > 0,
        forall|i: int|
            0 <= i < listings.len() && (#[trigger] listings@[i]).price is Some ==> exists|g: int|
                0 <= g < r.len() && r@[g].label@ == label_of(listings@[i], by),
{
    let labels = distinct_labels(listings, by);
    let mut groups: Vec<PriceGroup> = Vec::new();
    for label in it: labels.into_iter()
        invariant
            it.seq() == labels@,
            groups.len() == it.index(),
            forall|g: int| 0 <= g < labels.len() ==> label_occurs(listings@, by, #[trigger] labels@[g]@),
            forall|g: int, h: int| 0 <= g < h < labels.len() ==> labels@[g]@ != labels@[h]@,
            forall|g: int| 0 <= g < groups.len() ==> (#[trigger] groups@[g]).label@ == labels@[g]@,
            forall|g: int|
                0 <= g < groups.len() ==> (#[trigger] groups@[g]).prices@ == prices_with_label(listings@, by, groups@[g].label@)
                    && groups@[g].prices.len() > 0,
    {
        let ghost k = it.index();
        assert(label == labels@[k as int]);
        proof { lemma_label_occurs_nonempty(listings@, by, label@); }
        let prices = prices_for_label(listings, by, &label);
        groups.push(PriceGroup { label, prices });
    }
    assert forall|i: int|
        0 <= i < listings.len() && (#[trigger] listings@[i]).price is Some implies exists|g: int|
            0 <= g < groups.len() && groups@[g].label@ == label_of(listings@[i], by) by {
        let g = choose|g: int| 0 <= g < labels.len() && labels@[g]@ == label_of(listings@[i], by);
        assert(groups@[g].label@ == labels@[g]@);
    }
    groups
}

/// Smallest price of a group, and largest.
pub fn min_max(values: &Vec<u32>) -> (r: (u32, u32))
    requires
        values.len() > 0,
    ensures
        r.0 == seq_min(values@),
        r.1 == seq_max(values@),
{
    let mut lo = values[0];
    let mut hi = values[0];
    let mut i: usize = 1;
    while i < values.len()
        invariant
            1 <= i <= values.len(),
            lo == seq_min(values@.take(i as int)),
            hi == seq_max(values@.take(i as int)),
        decreases values.len() - i,
    {
        assert(values@.take(i + 1).drop_last() =~= values@.take(i as int));
        if values[i] < lo {
            lo = values[i];
        }
        if values[i] > hi {
            hi = values[i];
        }
        i = i + 1;
    }
    assert(values@.take(values.len() as int) =~= values@);
    (lo, hi)
}

/// Price statistics of one neighbourhood. `avg_price` is the mean price in
/// cents, rounded to the cent; `min_price` and `max_price` are in cents,
/// rounded to whole currency units.
pub struct NeighbourhoodAnalysis {
    pub neighbourhood: String,
    pub avg_price: u128,
    pub count: usize,
    pub min_price: u64,
    pub max_price: u64,
}

/// Fewest listings a neighbourhood needs, plus one, to be reported.
pub const MIN_GROUP: usize = 10;

/// `e` describes the neighbourhood it names within the listings `s`.
pub open spec fn describes_neighbourhood(e: NeighbourhoodAnalysis, s: Seq<Listing>) -> bool {
    let p = prices_with_label(s, GroupBy::Neighbourhood, e.neighbourhood@);
    &&& p.len() > MIN_GROUP
    &&& e.count == p.len()
    &&& e.avg_price == round_div(seq_sum(p), p.len() as int)
    &&& e.min_price == round_div(seq_min(p), 100) * 100
    &&& e.max_price == round_div(seq_max(p), 100) * 100
}

/// The entries are in non-increasing order of mean price.
pub open spec fn sorted_by_avg_desc(r: Seq<NeighbourhoodAnalysis>) -> bool {
    forall|i: int, j: int| 0 <= i <= j < r.len() ==> r[i].avg_price >= r[j].avg_price
}

/// The statistics of one group of more than ten prices.
fn describe_neighbourhood(group: PriceGroup, Ghost(s): Ghost<Seq<Listing>>) -> (r: NeighbourhoodAnalysis)
    requires
        group.prices@ == prices_with_label(s, GroupBy::Neighbourhood, group.label@),
        group.prices.len() > MIN_GROUP,
    ensures
        describes_neighbourhood(r, s),
        r.neighbourhood@ == group.label@,
{
    let count = group.prices.len();
    let avg = match mean_rounded(group.prices.as_slice()) {
        Some(a) => a,
        None => 0,
    };
    let (lo, hi) = min_max(&group.prices);
    NeighbourhoodAnalysis {
        neighbourhood: group.label,
        avg_price: avg,
        count,
        min_price: round_to_unit(lo),
        max_price: round_to_unit(hi),
    }
}

/// Inserts `e` after every entry whose mean price is at least its own.
fn insert_by_avg(out: &mut Vec<NeighbourhoodAnalysis>, e: NeighbourhoodAnalysis) -> (pos: usize)
    requires
        sorted_by_avg_desc(old(out)@),
    ensures
        pos <= old(out).len(),
        final(out)@ == old(out)@.insert(pos as int, e),
        sorted_by_avg_desc(final(out)@),
{
    let mut pos: usize = 0;
    while pos < out.len() && out[pos].avg_price >= e.avg_price
        invariant
            pos <= out.len(),
            forall|k: int| 0 <= k < pos ==> out@[k].avg_price >= e.avg_price,
        decreases out.len() - pos,
    {
        pos = pos + 1;
    }
    let ghost prev = out@;
    let ghost key = e.avg_price;
    out.insert(pos, e);
    assert forall|i: int, j: int| 0 <= i <= j < out.len() implies out@[i].avg_price >= out@[j].avg_price by {
        if i < pos && j > pos {
            assert(prev[i].avg_price >= prev[j - 1].avg_price);
        } else if i > pos {
            assert(prev[i - 1].avg_price >= prev[j - 1].avg_price);
        } else if i == pos && j > pos {
            assert(prev[pos as int].avg_price < key);
            assert(prev[pos as int].avg_price >= prev[j - 1].avg_price);
        }
    }
    pos
}

/// Per-neighbourhood price statistics over the neighbourhoods with more than
/// ten priced listings, each reported once, in non-increasing order of mean
/// price (ties in no particular order).
pub fn calculate_neighbourhood_analysis(listings: &[Listing]) -> (r: Vec<NeighbourhoodAnalysis>)
    ensures
        sorted_by_avg_desc(r@),
        forall|k: int| 0 <= k < r.len() ==> describes_neighbourhood(#[trigger] r@[k], listings@),
        forall|k: int, m: int| 0 <= k < m < r.len() ==> r@[k].neighbourhood@ != r@[m].neighbourhood@,
        forall|label: Seq<char>|
            #![trigger prices_with_label(listings@, GroupBy::Neighbourhood, label)]
            prices_with_label(listings@, GroupBy::Neighbourhood, label).len() > MIN_GROUP ==> exists|k: int|
                0 <= k < r.len() && r@[k].neighbourhood@ == label,
{
    let groups = group_prices(listings, GroupBy::Neighbourhood);
    let ghost gs = groups@;
    let mut out: Vec<NeighbourhoodAnalysis> = Vec::new();
    for group in it: groups.into_iter()
        invariant
            it.seq() == gs,
            it.index() <= gs.len(),
            forall|g: int, h: int| 0 <= g < h < gs.len() ==> gs[g].label@ != gs[h].label@,
            forall|g: int|
                0 <= g < gs.len() ==> (#[trigger] gs[g]).prices@ == prices_with_label(listings@, GroupBy::Neighbourhood, gs[g].label@)
                    && gs[g].prices.len() > 0,
            sorted_by_avg_desc(out@),
            forall|k: int| 0 <= k < out.len() ==> describes_neighbourhood(#[trigger] out@[k], listings@),
            forall|g: int, k: int|
                it.index() <= g < gs.len() && 0 <= k < out.len() ==> (#[trigger] gs[g]).label@ != (#[trigger] out@[k]).neighbourhood@,
            forall|k: int, m: int| 0 <= k < m < out.len() ==> out@[k].neighbourhood@ != out@[m].neighbourhood@,
            forall|g: int|
                0 <= g < it.index() && (#[trigger] gs[g]).prices.len() > MIN_GROUP ==> exists|k: int|
                    0 <= k < out.len() && out@[k].neighbourhood@ == gs[g].label@,
    {
        let ghost gi = it.index();
        assert(group == gs[gi as int]);
        if group.prices.len() > MIN_GROUP {
            let e = describe_neighbourhood(group, Ghost(listings@));
            let ghost prev = out@;
            let pos = insert_by_avg(&mut out, e);
            assert forall|k: int| 0 <= k < out.len() implies describes_neighbourhood(#[trigger] out@[k], listings@) by {
                if k < pos {
                    assert(out@[k] == prev[k]);
                } else if k > pos {
                    assert(out@[k] == prev[k - 1]);
                }
            }
            assert forall|g: int, k: int|
                gi + 1 <= g < gs.len() && 0 <= k < out.len() implies (#[trigger] gs[g]).label@ != (#[trigger] out@[k]).neighbourhood@ by {
                if k < pos {
                    assert(out@[k] == prev[k]);
                } else if k > pos {
                    assert(out@[k] == prev[k - 1]);
                }
            }
            assert forall|k: int, m: int| 0 <= k < m < out.len() implies out@[k].neighbourhood@ != out@[m].neighbourhood@ by {
                let kk = if k < pos { k } else { k - 1 };
                let mm = if m < pos { m } else { m - 1 };
                if k != pos && m != pos {
                    assert(out@[k] == prev[kk] && out@[m] == prev[mm]);
                } else if k == pos {
                    assert(out@[m] == prev[mm]);
                    assert(gs[gi as int].label@ != prev[mm].neighbourhood@);
                } else {
                    assert(out@[k] == prev[kk]);
                    assert(gs[gi as int].label@ != prev[kk].neighbourhood@);
                }
            }
            assert forall|g: int|
                0 <= g < gi + 1 && (#[trigger] gs[g]).prices.len() > MIN_GROUP implies exists|k: int|
                    0 <= k < out.len() && out@[k].neighbourhood@ == gs[g].label@ by {
                if g < gi {
                    let k = choose|k: int| 0 <= k < prev.len() && prev[k].neighbourhood@ == gs[g].label@;
                    if k < pos {
                        assert(out@[k] == prev[k]);
                    } else {
                        assert(out@[k + 1] == prev[k]);
                    }
                } else {
                    assert(out@[pos as int].neighbourhood@ == gs[g].label@);
                }
            }
        }
    }
    assert forall|label: Seq<char>|
        #![trigger prices_with_label(listings@, GroupBy::Neighbourhood, label)]
        prices_with_label(listings@, GroupBy::Neighbourhood, label).len() > MIN_GROUP implies exists|k: int|
            0 <= k < out.len() && out@[k].neighbourhood@ == label by {
        lemma_nonempty_label_occurs(listings@, GroupBy::Neighbourhood, label);
        let i = choose|i: int| 0 <= i < listings@.len() && listings@[i].price is Some && label_of(listings@[i], GroupBy::Neighbourhood) == label;
        assert(listings@[i].price is Some);
        let g = choose|g: int| 0 <= g < gs.len() && gs[g].label@ == label_of(listings@[i], GroupBy::Neighbourhood);
        assert(gs[g].prices.len() > MIN_GROUP);
    }
    out
}

proof fn lemma_nonempty_label_occurs(s: Seq<Listing>, by: GroupBy, label: Seq<char>)
    requires
        prices_with_label(s, by, label).len() > 0,
    ensures
        label_occurs(s, by, label),
    decreases s.len(),
{
    let d = s.drop_last();
    if s.last().price is Some && label_of(s.last(), by) == label {
        assert(s[s.len() - 1] == s.last());
    } else {
        lemma_nonempty_label_occurs(d, by, label);
        let i = choose|i: int| 0 <= i < d.len() && d[i].price is Some && label_of(d[i], by) == label;
        assert(s[i] == d[i]);
    }
}

/// Price statistics of one room type; `avg_price` is the mean price in
/// cents, rounded to the cent.
pub struct RoomTypeAnalysis {
    pub room_type: String,
    pub avg_price: u128,
    pub count: usize,
}

/// `e` describes the room type it names within the listings `s`.
pub open spec fn describes_room_type(e: RoomTypeAnalysis, s: Seq<Listing>) -> bool {
    let p = prices_with_label(s, GroupBy::RoomType, e.room_type@);
    &&& p.len() > 0
    &&& e.count == p.len()
    &&& e.avg_price == round_div(seq_sum(p), p.len() as int)
}

/// Per-room-type price statistics, one entry for each room type that some
/// priced listing has, in order of first appearance.
pub fn calculate_room_type_analysis(listings: &[Listing]) -> (r: Vec<RoomTypeAnalysis>)
    ensures
        forall|k: int| 0 <= k < r.len() ==> describes_room_type(#[trigger] r@[k], listings@),
        forall|k: int, m: int| 0 <= k < m < r.len() ==> r@[k].room_type@ != r@[m].room_type@,
        forall|i: int|
            0 <= i < listings.len() && (#[trigger] listings@[i]).price is Some ==> exists|k: int|
                0 <= k < r.len() && r@[k].room_type@ == listings@[i].room_type@,
{
    let groups = group_prices(listings, GroupBy::RoomType);
    let ghost gs = groups@;
    let mut out: Vec<RoomTypeAnalysis> = Vec::new();
    for group in it: groups.into_iter()
        invariant
            it.seq() == gs,
            out.len() == it.index(),
            forall|g: int|
                0 <= g < gs.len() ==> (#[trigger] gs[g]).prices@ == prices_with_label(listings@, GroupBy::RoomType, gs[g].label@)
                    && gs[g].prices.len() > 0,
            forall|k: int| 0 <= k < out.len() ==> (#[trigger] out@[k]).room_type@ == gs[k].label@,
            forall|k: int| 0 <= k < out.len() ==> describes_room_type(#[trigger] out@[k], listings@),
    {
        let ghost gi = it.index();
        assert(group == gs[gi as int]);
        let count = group.prices.len();
        let avg = match mean_rounded(group.prices.as_slice()) {
            Some(a) => a,
            None => 0,
        };
        out.push(RoomTypeAnalysis { room_type: group.label, avg_price: avg, count });
    }
    assert forall|k: int, m: int| 0 <= k < m < out.len() implies out@[k].room_type@ != out@[m].room_type@ by {
        assert(out@[k].room_type@ == gs[k].label@ && out@[m].room_type@ == gs[m].label@);
    }
    assert forall|i: int|
        0 <= i < listings.len() && (#[trigger] listings@[i]).price is Some implies exists|k: int|
            0 <= k < out.len() && out@[k].room_type@ == listings@[i].room_type@ by {
        let g = choose|g: int| 0 <= g < gs.len() && gs[g].label@ == label_of(listings@[i], GroupBy::RoomType);
        assert(out@[g].room_type@ == gs[g].label@);
    }
    out
}

} // verus!
