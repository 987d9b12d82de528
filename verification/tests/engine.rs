//! Commands, calendar, rendering and persistence invariants.

use nw_tracker::calendar::{days_in_month, subtract_months, subtract_years, validate_date};
use nw_tracker::commands::{
    add_asset, add_snapshot, collect_non_usd_currencies, count_snapshots_with_asset, edit_asset,
    edit_snapshot, remove_asset, select_snapshot,
};
use nw_tracker::compute::{compute_allocation, compute_history_rows, filter_by_range, to_usd};
use nw_tracker::display::{fmt_change, fmt_currency, fmt_pct, fmt_with_commas};
use nw_tracker::error::NwError;
use nw_tracker::model::{Asset, HistoryRange, Portfolio, Snapshot, SnapshotEntry};
use nw_tracker::store::{portfolio_path, prepare_for_save};
use nw_tracker::SCALE;

fn sample_portfolio() -> Portfolio {
    Portfolio {
        assets: vec![
            Asset {
                id: "vti".to_string(),
                name: "VTI".to_string(),
                category: "etf".to_string(),
                currency: "USD".to_string(),
            },
            Asset {
                id: "eur-cash".to_string(),
                name: "Euro cash".to_string(),
                category: "bank".to_string(),
                currency: "EUR".to_string(),
            },
        ],
        snapshots: vec![
            Snapshot {
                date: "2025-01-01".to_string(),
                rates: vec![("EUR".to_string(), 9200)],
                entries: vec![
                    SnapshotEntry { asset_id: "vti".to_string(), value: 1000_0000 },
                    SnapshotEntry { asset_id: "eur-cash".to_string(), value: 92_0000 },
                ],
            },
            Snapshot {
                date: "2025-02-01".to_string(),
                rates: vec![("EUR".to_string(), 9200)],
                entries: vec![SnapshotEntry { asset_id: "vti".to_string(), value: 1100_0000 }],
            },
        ],
    }
}

// ---- to_usd: the rate definition round-trips to exactly one dollar ----

#[test]
fn test_to_usd_rate_roundtrip_is_one_dollar() {
    let rates = vec![("AMD".to_string(), 387_5000u64)];
    assert_eq!(to_usd(387_5000, "AMD", &rates).unwrap(), SCALE);
}

// ---- allocation percentages account for the whole ----

#[test]
fn test_allocation_percentages_sum_to_whole() {
    let totals: Vec<(String, u128)> = vec![
        ("etf".to_string(), 1670_0000),
        ("crypto".to_string(), 320_0000),
        ("bank".to_string(), 646_0000),
    ];
    let alloc = compute_allocation(&totals, 2636_0000);
    let sum: u128 = alloc.iter().map(|(_, p)| *p).sum();
    // Percentages are scaled by 10^4; they fall short of 100% by less than
    // one rounding step per category.
    assert!(sum <= 1_000_000);
    assert!(sum > 1_000_000 - 3);
}

// ---- validate_date ----

#[test]
fn test_validate_date_accepts_iso() {
    assert!(validate_date("2025-02-28").is_ok());
    assert!(validate_date("2024-02-29").is_ok());
}

#[test]
fn test_validate_date_rejects_malformed() {
    assert!(matches!(validate_date("2025-2-8"), Err(NwError::InvalidDate(_))));
    assert!(matches!(validate_date("2025-13-01"), Err(NwError::InvalidDate(_))));
    assert!(matches!(validate_date("2025-02-29"), Err(NwError::InvalidDate(_))));
    assert!(matches!(validate_date("not-a-date"), Err(NwError::InvalidDate(_))));
}

// ---- calendar arithmetic ----

#[test]
fn test_days_in_month_leap_rule() {
    assert_eq!(days_in_month(2024, 2), 29);
    assert_eq!(days_in_month(2025, 2), 28);
    assert_eq!(days_in_month(2100, 2), 28);
    assert_eq!(days_in_month(2000, 2), 29);
    assert_eq!(days_in_month(2025, 4), 30);
    assert_eq!(days_in_month(2025, 12), 31);
}

#[test]
fn test_subtract_months_clamps_day() {
    // 2025-03-31 minus one month: February has 28 days in 2025.
    assert_eq!(subtract_months(2025, 3, 31, 1), (2025, 2, 28));
    // Leap year: clamps to February 29.
    assert_eq!(subtract_months(2024, 3, 31, 1), (2024, 2, 29));
    // Year rollover.
    assert_eq!(subtract_months(2025, 1, 15, 1), (2024, 12, 15));
}

#[test]
fn test_subtract_years_clamps_leap_day() {
    assert_eq!(subtract_years(2024, 2, 29, 1), (2023, 2, 28));
    assert_eq!(subtract_years(2025, 6, 15, 5), (2020, 6, 15));
}

// ---- range boundary: the cutoff date itself is retained ----

#[test]
fn test_filter_boundary_inclusive() {
    let snapshots = vec![
        Snapshot { date: "2024-02-27".to_string(), rates: vec![], entries: vec![] },
        Snapshot { date: "2024-02-28".to_string(), rates: vec![], entries: vec![] },
    ];
    let result = filter_by_range(&snapshots, HistoryRange::OneYear, "2025-02-28");
    assert_eq!(result.len(), 1);
    assert_eq!(result[0].date, "2024-02-28");
}

#[test]
fn test_filter_unparseable_anchor_returns_all() {
    let snapshots = vec![
        Snapshot { date: "2019-01-01".to_string(), rates: vec![], entries: vec![] },
        Snapshot { date: "2025-01-01".to_string(), rates: vec![], entries: vec![] },
    ];
    let result = filter_by_range(&snapshots, HistoryRange::OneMonth, "not a date");
    assert_eq!(result.len(), 2);
}

// ---- history rows ----

#[test]
fn test_history_rows_change_columns() {
    let portfolio = sample_portfolio();
    let refs: Vec<&Snapshot> = portfolio.snapshots.iter().collect();
    let rows = compute_history_rows(&refs, &portfolio).unwrap();
    assert_eq!(rows.len(), 2);
    assert_eq!(rows[0].change_usd, None);
    assert_eq!(rows[0].change_pct, None);
    // First total: 1000 + 92/0.92 = 1100 USD; second total: 1100 USD.
    assert_eq!(rows[0].total_usd, 1100_0000);
    assert_eq!(rows[1].total_usd, 1100_0000);
    assert_eq!(rows[1].change_usd, Some(0));
    assert_eq!(rows[1].change_pct, Some(0));
}

#[test]
fn test_history_rows_missing_rate_aborts() {
    let mut portfolio = sample_portfolio();
    portfolio.snapshots[0].rates = vec![];
    let refs: Vec<&Snapshot> = portfolio.snapshots.iter().collect();
    let err = compute_history_rows(&refs, &portfolio).unwrap_err();
    assert!(matches!(err, NwError::RateMissing(c) if c == "EUR"));
}

// ---- asset commands ----

#[test]
fn test_add_asset_normalizes_case() {
    let mut portfolio = Portfolio::new();
    add_asset(
        &mut portfolio,
        "btc".to_string(),
        "Bitcoin".to_string(),
        "CRYPTO".to_string(),
        "usd".to_string(),
    )
    .unwrap();
    assert_eq!(portfolio.assets[0].category, "crypto");
    assert_eq!(portfolio.assets[0].currency, "USD");
}

#[test]
fn test_add_asset_rejects_duplicate_id() {
    let mut portfolio = sample_portfolio();
    let err = add_asset(
        &mut portfolio,
        "vti".to_string(),
        "Other".to_string(),
        "etf".to_string(),
        "USD".to_string(),
    )
    .unwrap_err();
    assert!(matches!(err, NwError::DuplicateAssetId(id) if id == "vti"));
    assert_eq!(portfolio.assets.len(), 2);
}

#[test]
fn test_edit_asset_updates_given_fields() {
    let mut portfolio = sample_portfolio();
    let changed = edit_asset(
        &mut portfolio,
        "vti",
        None,
        Some("Index".to_string()),
        None,
    )
    .unwrap();
    assert!(changed);
    assert_eq!(portfolio.assets[0].category, "index");
    assert_eq!(portfolio.assets[0].name, "VTI");
}

#[test]
fn test_edit_asset_nothing_to_update() {
    let mut portfolio = sample_portfolio();
    let changed = edit_asset(&mut portfolio, "vti", None, None, None).unwrap();
    assert!(!changed);
}

#[test]
fn test_edit_asset_not_found() {
    let mut portfolio = sample_portfolio();
    let err = edit_asset(&mut portfolio, "nope", None, None, None).unwrap_err();
    assert!(matches!(err, NwError::AssetNotFound(id) if id == "nope"));
}

#[test]
fn test_remove_asset_keeps_snapshots() {
    let mut portfolio = sample_portfolio();
    assert_eq!(count_snapshots_with_asset(&portfolio, "eur-cash"), 1);
    remove_asset(&mut portfolio, "eur-cash").unwrap();
    assert_eq!(portfolio.assets.len(), 1);
    assert_eq!(portfolio.snapshots.len(), 2);
    // The dangling entry contributes nothing from now on.
    let refs: Vec<&Snapshot> = portfolio.snapshots.iter().collect();
    let rows = compute_history_rows(&refs, &portfolio).unwrap();
    assert_eq!(rows[0].total_usd, 1000_0000);
}

// ---- snapshot commands ----

#[test]
fn test_add_snapshot_rejects_bad_date() {
    let mut portfolio = Portfolio::new();
    let err = add_snapshot(&mut portfolio, "2025-2-8".to_string(), vec![], vec![]).unwrap_err();
    assert!(matches!(err, NwError::InvalidDate(d) if d == "2025-2-8"));
}

#[test]
fn test_add_snapshot_rejects_duplicate_date() {
    let mut portfolio = sample_portfolio();
    let err =
        add_snapshot(&mut portfolio, "2025-01-01".to_string(), vec![], vec![]).unwrap_err();
    assert!(matches!(err, NwError::SnapshotAlreadyExists(d) if d == "2025-01-01"));
}

#[test]
fn test_add_and_edit_snapshot() {
    let mut portfolio = sample_portfolio();
    add_snapshot(
        &mut portfolio,
        "2025-03-01".to_string(),
        vec![("EUR".to_string(), 9000)],
        vec![SnapshotEntry { asset_id: "vti".to_string(), value: 1200_0000 }],
    )
    .unwrap();
    assert_eq!(portfolio.snapshots.len(), 3);
    edit_snapshot(
        &mut portfolio,
        "2025-03-01",
        vec![("EUR".to_string(), 9100)],
        vec![],
    )
    .unwrap();
    assert_eq!(portfolio.snapshots[2].rates[0].1, 9100);
    assert!(portfolio.snapshots[2].entries.is_empty());
    let err = edit_snapshot(&mut portfolio, "2025-04-01", vec![], vec![]).unwrap_err();
    assert!(matches!(err, NwError::SnapshotNotFound(d) if d == "2025-04-01"));
}

#[test]
fn test_select_snapshot_defaults_to_latest() {
    let portfolio = sample_portfolio();
    let s = select_snapshot(&portfolio, None).unwrap();
    assert_eq!(s.date, "2025-02-01");
    let s = select_snapshot(&portfolio, Some("2025-01-01")).unwrap();
    assert_eq!(s.date, "2025-01-01");
    let err = select_snapshot(&portfolio, Some("2024-01-01")).unwrap_err();
    assert!(matches!(err, NwError::SnapshotNotFound(_)));
}

#[test]
fn test_collect_non_usd_currencies_sorted_unique() {
    let mut portfolio = sample_portfolio();
    add_asset(
        &mut portfolio,
        "jpy-cash".to_string(),
        "Yen".to_string(),
        "bank".to_string(),
        "jpy".to_string(),
    )
    .unwrap();
    add_asset(
        &mut portfolio,
        "eur-more".to_string(),
        "More euros".to_string(),
        "bank".to_string(),
        "EUR".to_string(),
    )
    .unwrap();
    let currencies = collect_non_usd_currencies(&portfolio);
    assert_eq!(currencies, vec!["EUR".to_string(), "JPY".to_string()]);
}

// ---- persistence invariants ----

#[test]
fn test_prepare_for_save_sorts_snapshots() {
    let mut portfolio = sample_portfolio();
    portfolio.snapshots.reverse();
    prepare_for_save(&mut portfolio);
    assert_eq!(portfolio.snapshots[0].date, "2025-01-01");
    assert_eq!(portfolio.snapshots[1].date, "2025-02-01");
    assert_eq!(portfolio.assets.len(), 2);
}

#[test]
fn test_portfolio_path_under_config_dir() {
    assert_eq!(
        portfolio_path("/home/someone/.config"),
        "/home/someone/.config/nw-tracker/portfolio.json"
    );
}

// ---- range tokens ----

#[test]
fn test_range_token_parse_case_insensitive() {
    assert_eq!(HistoryRange::from_str("1m").unwrap(), HistoryRange::OneMonth);
    assert_eq!(HistoryRange::from_str("6M").unwrap(), HistoryRange::SixMonths);
    assert_eq!(HistoryRange::from_str("1Y").unwrap(), HistoryRange::OneYear);
    assert_eq!(HistoryRange::from_str("5y").unwrap(), HistoryRange::FiveYears);
    assert_eq!(HistoryRange::from_str("all").unwrap(), HistoryRange::All);
    let err = HistoryRange::from_str("2w").unwrap_err();
    assert!(matches!(err, NwError::InvalidHistoryRange(t) if t == "2w"));
}

#[test]
fn test_range_label_round_trips() {
    assert_eq!(HistoryRange::OneMonth.label(), "1M");
    assert_eq!(HistoryRange::All.label(), "ALL");
}

// ---- error messages ----

#[test]
fn test_error_messages() {
    assert_eq!(
        NwError::RateMissing("EUR".to_string()).message(),
        "no rate found for currency 'EUR'"
    );
    assert_eq!(
        NwError::DuplicateAssetId("vti".to_string()).message(),
        "asset id 'vti' already exists"
    );
    assert_eq!(
        NwError::InvalidHistoryRange("2w".to_string()).message(),
        "invalid history range '2w': expected 1M, 6M, 1Y, 5Y, or ALL"
    );
    assert_eq!(
        NwError::UsdRateRejected.message(),
        "USD is the base currency and cannot have a rate"
    );
}

// ---- number rendering ----

#[test]
fn test_fmt_with_commas_groups() {
    assert_eq!(fmt_with_commas(0), "0");
    assert_eq!(fmt_with_commas(999), "999");
    assert_eq!(fmt_with_commas(1000), "1,000");
    assert_eq!(fmt_with_commas(1234567), "1,234,567");
}

#[test]
fn test_fmt_currency_rounds_to_cents() {
    assert_eq!(fmt_currency(12345678), "1,234.57");
    assert_eq!(fmt_currency(-12345678), "-1,234.57");
    assert_eq!(fmt_currency(9_9999), "10.00");
    assert_eq!(fmt_currency(0), "0.00");
}

#[test]
fn test_fmt_change_and_pct_signs() {
    assert_eq!(fmt_change(12_0000), "+12.00");
    assert_eq!(fmt_change(-12_0000), "-12.00");
    assert_eq!(fmt_pct(6_6193), "+6.62%");
    assert_eq!(fmt_pct(-2_8824), "-2.88%");
}
