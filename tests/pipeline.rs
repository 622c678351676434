use analytics::parse::{clean_price, parse_date, parse_hundredths};
use analytics::analysis::{calculate_neighbourhood_analysis, calculate_room_type_analysis, group_prices, GroupBy};
use analytics::cleaning::{clean_calendar, clean_listings, preprocess_data, validate_calendar, validate_listings};
use analytics::ranking::{calculate_sample_listings, calculate_top_revenue_listings, revenue_entry_of};
use analytics::records::{CalendarEntry, Listing};
use analytics::regression::simple_linear_regression;
use analytics::stats::{iqr_bounds, mean_rounded, median_of_sorted, remove_outliers_iqr, round_to_unit};
use analytics::summary::summarize;

fn listing(id: u64, hood: &str, room: &str, price: u32) -> Listing {
    Listing {
        id,
        name: Some(format!("Listing {}", id)),
        neighbourhood_cleansed: hood.to_string(),
        room_type: room.to_string(),
        price: Some(price),
        accommodates: Some(200),
        bedrooms: Some(100),
        bathrooms: Some(100),
        beds: Some(100),
        minimum_nights: Some(100),
        maximum_nights: Some(30000),
        availability_365: Some(36500),
        review_scores_rating: None,
        host_is_superhost: None,
        estimated_revenue_l365d: None,
    }
}

fn entry(id: u64, date: u32, price: u32, adjusted: u32) -> CalendarEntry {
    CalendarEntry {
        listing_id: id,
        date,
        available: "t".to_string(),
        price: Some(price),
        adjusted_price: Some(adjusted),
        minimum_nights: None,
        maximum_nights: None,
    }
}

#[test]
fn regression_fits_a_line_through_the_origin() {
    let x = vec![100u32, 200, 300, 400];
    let y = vec![1000u32, 2000, 3000, 4000];
    let m = simple_linear_regression(&x, &y).unwrap();
    assert_eq!(m.slope, 1000);
    assert_eq!(m.intercept, 0);
}

#[test]
fn regression_with_an_offset() {
    let x = vec![100u32, 200, 300];
    let y = vec![1500u32, 2500, 3500];
    let m = simple_linear_regression(&x, &y).unwrap();
    assert_eq!(m.slope, 1000);
    assert_eq!(m.intercept, 500);
}

#[test]
fn regression_degenerate_inputs() {
    assert!(simple_linear_regression(&[], &[]).is_none());
    assert!(simple_linear_regression(&[200, 200, 200], &[1, 2, 3]).is_none());
}

#[test]
fn median_takes_upper_middle() {
    let sorted = vec![1000u32, 2000, 3000, 4000];
    assert_eq!(median_of_sorted(&sorted), 3000);
    assert_eq!(round_to_unit(3049), 3000);
    assert_eq!(round_to_unit(3050), 3100);
}

#[test]
fn mean_rounds_to_nearest() {
    assert_eq!(mean_rounded(&[1, 2]), Some(2));
    assert_eq!(mean_rounded(&[1, 1, 2]), Some(1));
    assert_eq!(mean_rounded(&[]), None);
}

#[test]
fn iqr_rule_on_eight_values() {
    let data = vec![1u32, 2, 3, 4, 5, 6, 7, 8];
    let b = iqr_bounds(&data).unwrap();
    assert_eq!(b.q1, 3);
    assert_eq!(b.q3, 7);
    assert!(b.contains(0));
    assert!(b.contains(13));
    assert!(!b.contains(14));
    assert_eq!(remove_outliers_iqr(&data), data);
}

#[test]
fn iqr_rule_drops_far_value_in_original_order() {
    let data = vec![5u32, 1, 100, 3, 2, 4, 6, 7];
    assert_eq!(remove_outliers_iqr(&data), vec![5, 1, 3, 2, 4, 6, 7]);
}

#[test]
fn empty_column_rejects_everything() {
    assert!(iqr_bounds(&[]).is_none());
    assert!(remove_outliers_iqr(&[]).is_empty());
    let mut l = listing(1, "A", "Room", 0);
    l.price = Some(0);
    assert!(clean_listings(vec![l]).is_empty());
}

#[test]
fn validation_rules() {
    let good = listing(1, "A", "Room", 5000);
    let mut no_capacity = listing(2, "A", "Room", 5000);
    no_capacity.accommodates = None;
    let mut no_min = listing(3, "A", "Room", 5000);
    no_min.minimum_nights = None;
    let mut no_max = listing(4, "A", "Room", 5000);
    no_max.maximum_nights = None;
    let mut long_stay = listing(5, "A", "Room", 5000);
    long_stay.maximum_nights = Some(36600);
    let mut no_bath = listing(6, "A", "Room", 5000);
    no_bath.bathrooms = None;
    let mut no_price = listing(7, "A", "Room", 5000);
    no_price.price = None;
    let mut edge = listing(8, "A", "Room", 5000);
    edge.maximum_nights = Some(36500);
    let kept = validate_listings(vec![good, no_capacity, no_min, no_max, long_stay, no_bath, no_price, edge]);
    let ids: Vec<u64> = kept.iter().map(|l| l.id).collect();
    assert_eq!(ids, vec![1, 8]);
}

#[test]
fn duplicates_keep_first_occurrence() {
    let a = listing(1, "A", "Room", 5000);
    let b = listing(2, "A", "Room", 6000);
    let a2 = listing(1, "B", "Home", 7000);
    let kept = validate_listings(vec![a, b, a2]);
    assert_eq!(kept.len(), 2);
    assert_eq!(kept[0].neighbourhood_cleansed, "A");
    assert_eq!(kept[0].price, Some(5000));
}

#[test]
fn cleaned_listings_lie_within_bounds() {
    let mut ls = Vec::new();
    for i in 0..8u64 {
        ls.push(listing(i, "A", "Room", 10000 + 100 * i as u32));
    }
    ls.push(listing(100, "A", "Room", 1_000_000));
    ls.push(listing(3, "A", "Room", 1_000_000));
    let cleaned = clean_listings(ls);
    let ids: Vec<u64> = cleaned.iter().map(|l| l.id).collect();
    assert_eq!(ids, vec![0, 1, 2, 3, 4, 5, 6, 7]);
}

#[test]
fn calendar_cleaning() {
    let c = vec![
        entry(1, 20240101, 10000, 10000),
        entry(1, 20240101, 12000, 12000),
        entry(1, 20240102, 0, 10000),
        entry(2, 20240101, 11000, 11000),
        entry(2, 20240102, 11000, 900000),
        entry(2, 20240103, 10500, 10500),
    ];
    let valid = validate_calendar(c);
    assert_eq!(valid.len(), 4);
    assert_eq!(valid[0].price, Some(10000));
    let c2 = vec![
        entry(1, 20240101, 10000, 10000),
        entry(1, 20240101, 12000, 12000),
        entry(2, 20240101, 11000, 11000),
        entry(2, 20240102, 11000, 900000),
        entry(2, 20240103, 10500, 10500),
    ];
    let cleaned = clean_calendar(c2);
    let keys: Vec<(u64, u32)> = cleaned.iter().map(|e| (e.listing_id, e.date)).collect();
    assert_eq!(keys, vec![(1, 20240101), (2, 20240101), (2, 20240103)]);
}

#[test]
fn preprocess_cleans_both_tables() {
    let (ls, cs) = preprocess_data(vec![listing(1, "A", "Room", 5000)], vec![entry(1, 20240101, 5000, 5000)]);
    assert_eq!(ls.len(), 1);
    assert_eq!(cs.len(), 1);
    let (ls, cs) = preprocess_data(Vec::new(), Vec::new());
    assert!(ls.is_empty() && cs.is_empty());
}

#[test]
fn neighbourhoods_need_more_than_ten_listings() {
    let mut ls = Vec::new();
    for i in 0..11u64 {
        ls.push(listing(i, "Cheap", "Room", 1000 + i as u32));
    }
    for i in 0..12u64 {
        ls.push(listing(100 + i, "Dear", "Home", 9000));
    }
    for i in 0..10u64 {
        ls.push(listing(200 + i, "Small", "Room", 50000));
    }
    let a = calculate_neighbourhood_analysis(&ls);
    assert_eq!(a.len(), 2);
    assert_eq!(a[0].neighbourhood, "Dear");
    assert_eq!(a[0].count, 12);
    assert_eq!(a[0].avg_price, 9000);
    assert_eq!(a[1].neighbourhood, "Cheap");
    assert_eq!(a[1].avg_price, 1005);
    assert_eq!(a[1].min_price, 1000);
    assert_eq!(a[1].max_price, 1000);
    assert!(a[0].avg_price >= a[1].avg_price);
}

#[test]
fn room_types_without_size_filter() {
    let ls = vec![listing(1, "A", "Room", 1000), listing(2, "B", "Home", 3000), listing(3, "C", "Room", 2001)];
    let r = calculate_room_type_analysis(&ls);
    assert_eq!(r.len(), 2);
    assert_eq!(r[0].room_type, "Room");
    assert_eq!(r[0].count, 2);
    assert_eq!(r[0].avg_price, 1501);
    assert_eq!(r[1].room_type, "Home");
    assert_eq!(r[1].avg_price, 3000);
    let g = group_prices(&ls, GroupBy::Neighbourhood);
    assert_eq!(g.len(), 3);
}

#[test]
fn occupancy_is_capped_and_rounded() {
    let mut l = listing(1, "A", "Room", 10000);
    l.estimated_revenue_l365d = Some(1825000);
    let e = revenue_entry_of(&l).unwrap();
    assert_eq!(e.occupancy_rate, 5000);
    assert_eq!(e.annual_revenue, 1825000);
    assert_eq!(e.avg_price, 10000);
    l.estimated_revenue_l365d = Some(99_000_000);
    assert_eq!(revenue_entry_of(&l).unwrap().occupancy_rate, 10000);
    l.estimated_revenue_l365d = None;
    assert!(revenue_entry_of(&l).is_none());
}

#[test]
fn top_revenue_keeps_ten_highest() {
    let mut ls = Vec::new();
    for i in 0..15u64 {
        let mut l = listing(i, "A", "Room", 10000);
        l.estimated_revenue_l365d = Some(100000 * ((i as u32 * 7) % 15 + 1));
        ls.push(l);
    }
    ls.push(listing(99, "A", "Room", 10000));
    let top = calculate_top_revenue_listings(&ls);
    assert_eq!(top.len(), 10);
    for w in top.windows(2) {
        assert!(w[0].annual_revenue >= w[1].annual_revenue);
    }
    assert_eq!(top[0].annual_revenue, 1500000);
    assert_eq!(top[9].annual_revenue, 600000);
    assert!(top.iter().all(|t| t.occupancy_rate <= 10000));
}

#[test]
fn sample_scans_first_hundred() {
    let mut ls = Vec::new();
    for i in 0..150u64 {
        let mut l = listing(i, "A", "Room", 12345);
        if i % 10 == 0 {
            l.accommodates = None;
        }
        if i == 1 {
            l.name = None;
        }
        ls.push(l);
    }
    let s = calculate_sample_listings(&ls);
    assert_eq!(s.len(), 90);
    assert_eq!(s[0].id, 1);
    assert_eq!(s[0].name, "Unknown");
    assert_eq!(s[1].name, "Listing 2");
    assert_eq!(s[0].price, 12300);
    assert_eq!(s[0].accommodates, 200);
    assert_eq!(s[89].id, 99);
    assert!(s.windows(2).all(|w| w[0].id < w[1].id));
}

#[test]
fn summary_figures() {
    let mut ls = Vec::new();
    for (i, p) in [1000u32, 2000, 3000, 4000].iter().enumerate() {
        let mut l = listing(i as u64, "A", "Room", *p);
        l.accommodates = Some(100 * (i as u32 + 1));
        ls.push(l);
    }
    let s = summarize(&ls);
    assert_eq!(s.cleaned_listings, 4);
    assert_eq!(s.avg_price, Some(2500));
    assert_eq!(s.median_price, Some(3000));
    let m = s.model.unwrap();
    assert_eq!(m.slope, 1000);
    assert_eq!(m.intercept, 0);
    let empty = summarize(&Vec::new());
    assert_eq!(empty.avg_price, None);
    assert_eq!(empty.median_price, None);
    assert!(empty.model.is_none());
}

#[test]
fn currency_strings_read_as_cents() {
    assert_eq!(clean_price("$1,234.50"), Some(123450));
    assert_eq!(clean_price("$12"), Some(1200));
    assert_eq!(clean_price("12.5"), Some(1250));
    assert_eq!(clean_price("$$5"), Some(500));
    assert_eq!(clean_price(".5"), Some(50));
    assert_eq!(clean_price("1,000,000"), Some(100000000));
    assert_eq!(clean_price("abc"), None);
    assert_eq!(clean_price(""), None);
    assert_eq!(clean_price("."), None);
    assert_eq!(clean_price("1.234"), None);
    assert_eq!(clean_price("$99999999.99"), None);
}

#[test]
fn decimals_and_dates() {
    assert_eq!(parse_hundredths(b"365"), Some(36500));
    assert_eq!(parse_hundredths(b"1.0"), Some(100));
    assert_eq!(parse_hundredths(b"-1"), None);
    assert_eq!(parse_date("2024-01-15"), Some(20240115));
    assert_eq!(parse_date("2024/01/15"), None);
    assert_eq!(parse_date("2024-1-15"), None);
}
