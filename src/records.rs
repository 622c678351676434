use vstd::prelude::*;

verus! {

/// One row of the listings table.
///
/// Amounts are fixed-point integers: `price` and `estimated_revenue_l365d` in
/// cents, every other decimal field in hundredths of its unit. `None` stands
/// for a field that is absent or does not parse.
pub struct Listing {
    pub id: u64,
    pub name: Option<String>,
    pub neighbourhood_cleansed: String,
    pub room_type: String,
    pub price: Option<u32>,
    pub accommodates: Option<u32>,
    pub bedrooms: Option<u32>,
    pub bathrooms: Option<u32>,
    pub beds: Option<u32>,
    pub minimum_nights: Option<u32>,
    pub maximum_nights: Option<u32>,
    pub availability_365: Option<u32>,
    pub review_scores_rating: Option<u32>,
    pub host_is_superhost: Option<String>,
    pub estimated_revenue_l365d: Option<u32>,
}

/// One row of the calendar table.
///
/// `date` is the calendar day written as the number `YYYYMMDD`; the prices are
/// in cents and the stay overrides in hundredths of a night.
pub struct CalendarEntry {
    pub listing_id: u64,
    pub date: u32,
    pub available: String,
    pub price: Option<u32>,
    pub adjusted_price: Option<u32>,
    pub minimum_nights: Option<u32>,
    pub maximum_nights: Option<u32>,
}

} // verus!
