//! The valuation, change, filtering and allocation scenarios.
//!
//! Monetary inputs are scaled by 10^4: `12_500_0000` is 1250.0 units.

use nw_tracker::compute::{
    compute_allocation, compute_change, compute_show_rows, filter_by_range, to_usd,
};
use nw_tracker::model::{Asset, HistoryRange, Portfolio, Snapshot, SnapshotEntry};
use nw_tracker::store::sort_snapshots;

fn make_rates(pairs: &[(&str, u64)]) -> Vec<(String, u64)> {
    pairs.iter().map(|(k, v)| (k.to_string(), *v)).collect()
}

fn make_snapshot(date: &str) -> Snapshot {
    Snapshot { date: date.to_string(), rates: Vec::new(), entries: vec![] }
}

// ---- to_usd ----

#[test]
fn test_to_usd_passthrough() {
    let rates = Vec::new();
    assert_eq!(to_usd(1000_0000, "USD", &rates).unwrap(), 1000_0000);
}

#[test]
fn test_to_usd_foreign() {
    // 1 USD = 0.92 EUR, so 800 EUR / 0.92 ≈ 869.57 USD
    let rates = make_rates(&[("EUR", 9200)]);
    let result = to_usd(800_0000, "EUR", &rates).unwrap();
    assert!((result as f64 / 10_000.0 - 869.6).abs() < 0.1);
}

#[test]
fn test_to_usd_missing_rate() {
    let rates = Vec::new();
    assert!(to_usd(100_0000, "EUR", &rates).is_err());
}

// ---- compute_change ----

#[test]
fn test_compute_change_positive() {
    let (change, pct) = compute_change(42300_0000, 45100_0000);
    assert!((change as f64 / 10_000.0 - 2800.0).abs() < 0.01);
    assert!((pct as f64 / 10_000.0 - 6.62).abs() < 0.01);
}

#[test]
fn test_compute_change_negative() {
    let (change, pct) = compute_change(45100_0000, 43800_0000);
    assert!((change as f64 / 10_000.0 - (-1300.0)).abs() < 0.01);
    assert!((pct as f64 / 10_000.0 - (-2.88)).abs() < 0.01);
}

#[test]
fn test_compute_change_from_zero() {
    let (change, pct) = compute_change(0, 100_0000);
    assert!((change as f64 / 10_000.0 - 100.0).abs() < 0.01);
    assert_eq!(pct, 0);
}

// ---- filter_by_range ----

#[test]
fn test_filter_all() {
    let snapshots = vec![make_snapshot("2020-01-01"), make_snapshot("2025-02-28")];
    let result = filter_by_range(&snapshots, HistoryRange::All, "2025-02-28");
    assert_eq!(result.len(), 2);
}

#[test]
fn test_filter_1y() {
    let snapshots = vec![
        make_snapshot("2023-12-01"),
        make_snapshot("2024-03-01"),
        make_snapshot("2025-02-28"),
    ];
    // today = 2025-02-28, 1Y cutoff = 2024-02-28
    let result = filter_by_range(&snapshots, HistoryRange::OneYear, "2025-02-28");
    // 2023-12-01 is before cutoff, others are after
    assert_eq!(result.len(), 2);
    assert_eq!(result[0].date, "2024-03-01");
    assert_eq!(result[1].date, "2025-02-28");
}

#[test]
fn test_filter_1m() {
    let snapshots = vec![
        make_snapshot("2025-01-15"),
        make_snapshot("2025-02-10"),
        make_snapshot("2025-02-28"),
    ];
    // today = 2025-02-28, 1M cutoff = 2025-01-28
    let result = filter_by_range(&snapshots, HistoryRange::OneMonth, "2025-02-28");
    assert_eq!(result.len(), 2);
    assert_eq!(result[0].date, "2025-02-10");
}

#[test]
fn test_filter_6m() {
    let snapshots = vec![
        make_snapshot("2024-07-01"),
        make_snapshot("2024-09-01"),
        make_snapshot("2025-02-28"),
    ];
    // today = 2025-02-28, 6M cutoff = 2024-08-28
    let result = filter_by_range(&snapshots, HistoryRange::SixMonths, "2025-02-28");
    assert_eq!(result.len(), 2);
    assert_eq!(result[0].date, "2024-09-01");
}

#[test]
fn test_filter_5y() {
    let snapshots = vec![
        make_snapshot("2019-12-31"),
        make_snapshot("2020-03-01"),
        make_snapshot("2025-02-28"),
    ];
    // today = 2025-02-28, 5Y cutoff = 2020-02-28
    let result = filter_by_range(&snapshots, HistoryRange::FiveYears, "2025-02-28");
    assert_eq!(result.len(), 2);
    assert_eq!(result[0].date, "2020-03-01");
}

// ---- snapshot sort order ----

#[test]
fn test_snapshot_sort_ascending() {
    let snapshots = vec![
        make_snapshot("2025-06-01"),
        make_snapshot("2024-01-01"),
        make_snapshot("2025-01-15"),
    ];
    let snapshots = sort_snapshots(snapshots);
    assert_eq!(snapshots[0].date, "2024-01-01");
    assert_eq!(snapshots[1].date, "2025-01-15");
    assert_eq!(snapshots[2].date, "2025-06-01");
}

// ---- compute_allocation ----

#[test]
fn test_compute_allocation() {
    let totals: Vec<(String, u128)> = vec![
        ("etf".to_string(), 1670_0000),
        ("crypto".to_string(), 320_0000),
        ("bank".to_string(), 646_0000),
    ];
    let alloc = compute_allocation(&totals, 2636_0000);
    // Should be sorted descending by pct
    assert_eq!(alloc[0].0, "etf");
    assert!(alloc[0].1 > alloc[1].1);
}

#[test]
fn test_compute_allocation_zero_total() {
    let totals: Vec<(String, u128)> = Vec::new();
    let alloc = compute_allocation(&totals, 0);
    assert!(alloc.is_empty());
}

// ---- compute_show_rows ----

#[test]
fn test_compute_show_rows_usd_asset() {
    let portfolio = Portfolio {
        assets: vec![Asset {
            id: "vti".to_string(),
            name: "VTI".to_string(),
            category: "etf".to_string(),
            currency: "USD".to_string(),
        }],
        snapshots: vec![],
    };
    let snapshot = Snapshot {
        date: "2025-01-01".to_string(),
        rates: Vec::new(),
        entries: vec![SnapshotEntry { asset_id: "vti".to_string(), value: 12500_0000 }],
    };
    let (total, rows) = compute_show_rows(&snapshot, &portfolio, None).unwrap();
    assert!((total as f64 / 10_000.0 - 12500.0).abs() < 0.01);
    assert_eq!(rows.len(), 1);
    assert!((rows[0].usd_value as f64 / 10_000.0 - 12500.0).abs() < 0.01);
}

#[test]
fn test_compute_show_rows_foreign_asset() {
    let portfolio = Portfolio {
        assets: vec![Asset {
            id: "amd-bank".to_string(),
            name: "Ameriabank".to_string(),
            category: "bank".to_string(),
            currency: "AMD".to_string(),
        }],
        snapshots: vec![],
    };
    let snapshot = Snapshot {
        date: "2025-01-01".to_string(),
        rates: make_rates(&[("AMD", 387_5000)]),
        entries: vec![SnapshotEntry {
            asset_id: "amd-bank".to_string(),
            value: 2_500_000_0000,
        }],
    };
    let (total, rows) = compute_show_rows(&snapshot, &portfolio, None).unwrap();
    // 2,500,000 AMD / 387.5 = ~6451.6 USD
    assert!((total as f64 / 10_000.0 - 6451.6).abs() < 1.0);
    assert_eq!(rows.len(), 1);
}

#[test]
fn test_compute_show_rows_skips_unknown_asset() {
    let portfolio = Portfolio { assets: vec![], snapshots: vec![] };
    let snapshot = Snapshot {
        date: "2025-01-01".to_string(),
        rates: Vec::new(),
        entries: vec![SnapshotEntry { asset_id: "ghost".to_string(), value: 100_0000 }],
    };
    let (total, rows) = compute_show_rows(&snapshot, &portfolio, None).unwrap();
    assert_eq!(total, 0);
    assert!(rows.is_empty());
}

#[test]
fn test_compute_show_rows_category_filter() {
    let portfolio = Portfolio {
        assets: vec![
            Asset {
                id: "vti".to_string(),
                name: "VTI".to_string(),
                category: "etf".to_string(),
                currency: "USD".to_string(),
            },
            Asset {
                id: "btc".to_string(),
                name: "Bitcoin".to_string(),
                category: "crypto".to_string(),
                currency: "USD".to_string(),
            },
        ],
        snapshots: vec![],
    };
    let snapshot = Snapshot {
        date: "2025-01-01".to_string(),
        rates: Vec::new(),
        entries: vec![
            SnapshotEntry { asset_id: "vti".to_string(), value: 12500_0000 },
            SnapshotEntry { asset_id: "btc".to_string(), value: 3200_0000 },
        ],
    };
    let (total, rows) = compute_show_rows(&snapshot, &portfolio, Some("etf")).unwrap();
    assert!((total as f64 / 10_000.0 - 12500.0).abs() < 0.01);
    assert_eq!(rows.len(), 1);
    assert_eq!(rows[0].asset_name, "VTI");
}
