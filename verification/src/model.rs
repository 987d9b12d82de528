//! Persisted entities and view rows.
//!
//! All monetary amounts are fixed-point integers scaled by [`crate::SCALE`]:
//! a stored value of `10_000` is one unit of the currency. Rates carry the
//! same scale and mean "1 USD = rate units of the foreign currency".

use vstd::prelude::*;

use crate::calendar::is_date_str;
use crate::error::NwError;
use crate::{MAX_ENTRIES, VALUE_MAX};

verus! {

/// A tracked asset. `category` is stored lower-cased and `currency`
/// upper-cased; [`crate::commands::add_asset`] and
/// [`crate::commands::edit_asset`] apply the normalization.
#[derive(Debug, Clone)]
pub struct Asset {
    pub id: String,
    pub name: String,
    pub category: String,
    pub currency: String,
}

/// Mathematical model of an [`Asset`].
pub ghost struct AssetView {
    pub id: Seq<char>,
    pub name: Seq<char>,
    pub category: Seq<char>,
    pub currency: Seq<char>,
}

impl View for Asset {
    type V = AssetView;

    open spec fn view(&self) -> AssetView {
        AssetView {
            id: self.id@,
            name: self.name@,
            category: self.category@,
            currency: self.currency@,
        }
    }
}

/// One asset's scaled native-currency value on a snapshot date.
#[derive(Debug, Clone)]
pub struct SnapshotEntry {
    pub asset_id: String,
    pub value: u64,
}

/// Mathematical model of a [`SnapshotEntry`].
pub ghost struct EntryView {
    pub asset_id: Seq<char>,
    pub value: u64,
}

impl View for SnapshotEntry {
    type V = EntryView;

    open spec fn view(&self) -> EntryView {
        EntryView { asset_id: self.asset_id@, value: self.value }
    }
}

/// A dated record of asset values and the exchange rates in force that day.
/// `rates` maps non-USD currency codes to positive scaled rates; the list
/// form keeps keys unique (see [`SnapshotView::wf`]).
#[derive(Debug, Clone)]
pub struct Snapshot {
    pub date: String,
    pub rates: Vec<(String, u64)>,
    pub entries: Vec<SnapshotEntry>,
}

/// Mathematical model of a [`Snapshot`].
pub ghost struct SnapshotView {
    pub date: Seq<char>,
    pub rates: Seq<(Seq<char>, u64)>,
    pub entries: Seq<EntryView>,
}

/// The rate table as a sequence of (currency, scaled rate) pairs.
pub open spec fn rates_view(rates: Seq<(String, u64)>) -> Seq<(Seq<char>, u64)> {
    rates.map(|i: int, p: (String, u64)| (p.0@, p.1))
}

impl View for Snapshot {
    type V = SnapshotView;

    open spec fn view(&self) -> SnapshotView {
        SnapshotView {
            date: self.date@,
            rates: rates_view(self.rates@),
            entries: self.entries@.map(|i: int, e: SnapshotEntry| e@),
        }
    }
}

/// The scaled rate quoted for `currency`, if any: first match wins
/// (well-formed snapshots have unique keys, so the match is unique).
pub open spec fn rate_of(rates: Seq<(Seq<char>, u64)>, currency: Seq<char>) -> Option<u64>
    decreases rates.len(),
{
    if rates.len() == 0 {
        None
    } else if rates[0].0 == currency {
        Some(rates[0].1)
    } else {
        rate_of(rates.skip(1), currency)
    }
}

impl SnapshotView {
    /// Well-formedness: the date is a zero-padded ISO-8601 string, rate keys
    /// are unique, USD itself is never quoted, rates are positive, and the
    /// entries fit the fixed-point representation (so that every aggregate
    /// this engine computes stays exact in 128-bit arithmetic).
    pub open spec fn wf(self) -> bool {
        &&& is_date_str(self.date)
        &&& (forall|i: int, j: int|
            0 <= i < j < self.rates.len() ==> self.rates[i].0 != self.rates[j].0)
        &&& (forall|i: int| 0 <= i < self.rates.len() ==> (#[trigger] self.rates[i]).0 != "USD"@)
        &&& (forall|i: int| 0 <= i < self.rates.len() ==> #[trigger] self.rates[i].1 >= 1)
        &&& self.entries.len() <= MAX_ENTRIES
        &&& (forall|i: int| 0 <= i < self.entries.len() ==> #[trigger] self.entries[i].value <= VALUE_MAX)
    }
}

/// The aggregate root: every command loads it, mutates it at most once and
/// saves it back. Saved snapshots are sorted ascending by date.
#[derive(Debug, Clone)]
pub struct Portfolio {
    pub assets: Vec<Asset>,
    pub snapshots: Vec<Snapshot>,
}

/// Mathematical model of a [`Portfolio`].
pub ghost struct PortfolioView {
    pub assets: Seq<AssetView>,
    pub snapshots: Seq<SnapshotView>,
}

/// The models of a sequence of assets.
pub open spec fn assets_views(assets: Seq<Asset>) -> Seq<AssetView> {
    assets.map(|i: int, a: Asset| a@)
}

/// The models of a sequence of snapshots.
pub open spec fn snaps_views(snapshots: Seq<Snapshot>) -> Seq<SnapshotView> {
    snapshots.map(|i: int, s: Snapshot| s@)
}

/// The models of a sequence of show rows.
pub open spec fn rows_views(rows: Seq<ShowRow>) -> Seq<ShowRowView> {
    rows.map(|i: int, r: ShowRow| r@)
}

/// The models of a sequence of history rows.
pub open spec fn history_views(rows: Seq<HistoryRow>) -> Seq<HistoryRowView> {
    rows.map(|i: int, r: HistoryRow| r@)
}

/// The models of a sequence of borrowed snapshots.
pub open spec fn snap_refs_views(snapshots: Seq<&Snapshot>) -> Seq<SnapshotView> {
    snapshots.map(|i: int, s: &Snapshot| s@)
}

impl View for Portfolio {
    type V = PortfolioView;

    open spec fn view(&self) -> PortfolioView {
        PortfolioView { assets: assets_views(self.assets@), snapshots: snaps_views(self.snapshots@) }
    }
}

impl PortfolioView {
    /// Every snapshot is well-formed.
    pub open spec fn wf(self) -> bool {
        forall|i: int| 0 <= i < self.snapshots.len() ==> (#[trigger] self.snapshots[i]).wf()
    }
}

impl Portfolio {
    /// An empty portfolio: the state of a first run, before any file exists.
    pub fn new() -> (r: Portfolio)
        ensures
            r@.assets.len() == 0,
            r@.snapshots.len() == 0,
    {
        Portfolio { assets: Vec::new(), snapshots: Vec::new() }
    }
}

/// One display line of the `show` report.
#[derive(Debug, Clone)]
pub struct ShowRow {
    pub asset_name: String,
    pub currency: String,
    pub native_value: u64,
    pub usd_value: u64,
    pub category: String,
}

/// Mathematical model of a [`ShowRow`].
pub ghost struct ShowRowView {
    pub asset_name: Seq<char>,
    pub currency: Seq<char>,
    pub native_value: u64,
    pub usd_value: u64,
    pub category: Seq<char>,
}

impl View for ShowRow {
    type V = ShowRowView;

    open spec fn view(&self) -> ShowRowView {
        ShowRowView {
            asset_name: self.asset_name@,
            currency: self.currency@,
            native_value: self.native_value,
            usd_value: self.usd_value,
            category: self.category@,
        }
    }
}

/// One display line of the `history` report. The first row of a report has
/// no predecessor, so its change fields are `None`.
#[derive(Debug, Clone)]
pub struct HistoryRow {
    pub date: String,
    pub total_usd: u128,
    pub change_usd: Option<i128>,
    pub change_pct: Option<i128>,
}

/// Mathematical model of a [`HistoryRow`].
pub ghost struct HistoryRowView {
    pub date: Seq<char>,
    pub total_usd: u128,
    pub change_usd: Option<i128>,
    pub change_pct: Option<i128>,
}

impl View for HistoryRow {
    type V = HistoryRowView;

    open spec fn view(&self) -> HistoryRowView {
        HistoryRowView {
            date: self.date@,
            total_usd: self.total_usd,
            change_usd: self.change_usd,
            change_pct: self.change_pct,
        }
    }
}

/// A symbolic history window, anchored at "today".
#[derive(Debug, Clone, Copy, PartialEq, Eq, Structural)]
pub enum HistoryRange {
    OneMonth,
    SixMonths,
    OneYear,
    FiveYears,
    All,
}

/// ASCII-case-insensitive character equality, as code points.
pub open spec fn chars_eq_ci(a: char, b: char) -> bool {
    lower_code(a) == lower_code(b)
}

/// The code point of `c` with ASCII upper-case letters folded to lower case.
pub open spec fn lower_code(c: char) -> int {
    if 65 <= (c as u32) && (c as u32) <= 90 {
        (c as u32) + 32
    } else {
        (c as u32) as int
    }
}

/// ASCII-case-insensitive string equality.
pub open spec fn eq_ci(a: Seq<char>, b: Seq<char>) -> bool {
    a.len() == b.len() && forall|i: int| 0 <= i < a.len() ==> chars_eq_ci(a[i], b[i])
}

/// The range denoted by a token, if any: `1M`, `6M`, `1Y`, `5Y` or `ALL`,
/// in any letter case.
pub open spec fn range_of_token(s: Seq<char>) -> Option<HistoryRange> {
    if eq_ci(s, "1M"@) {
        Some(HistoryRange::OneMonth)
    } else if eq_ci(s, "6M"@) {
        Some(HistoryRange::SixMonths)
    } else if eq_ci(s, "1Y"@) {
        Some(HistoryRange::OneYear)
    } else if eq_ci(s, "5Y"@) {
        Some(HistoryRange::FiveYears)
    } else if eq_ci(s, "ALL"@) {
        Some(HistoryRange::All)
    } else {
        None
    }
}

impl HistoryRange {
    /// Parse a range token, case-insensitively. Any token other than
    /// `1M`, `6M`, `1Y`, `5Y` or `ALL` is rejected.
    pub fn from_str(s: &str) -> (r: Result<HistoryRange, NwError>)
        ensures
            match range_of_token(s@) {
                Some(range) => r == Ok::<HistoryRange, NwError>(range),
                None => r matches Err(NwError::InvalidHistoryRange(t)) && t@ == s@,
            },
    {
        proof {
            reveal_strlit("1M");
            reveal_strlit("6M");
            reveal_strlit("1Y");
            reveal_strlit("5Y");
            reveal_strlit("ALL");
        }
        let n = s.unicode_len();
        if n == 2 {
            let c0 = lower_char_code(s.get_char(0));
            let c1 = lower_char_code(s.get_char(1));
            if c0 == 49 && c1 == 109 {
                return Ok(HistoryRange::OneMonth);
            }
            if c0 == 54 && c1 == 109 {
                return Ok(HistoryRange::SixMonths);
            }
            if c0 == 49 && c1 == 121 {
                return Ok(HistoryRange::OneYear);
            }
            if c0 == 53 && c1 == 121 {
                return Ok(HistoryRange::FiveYears);
            }
        }
        if n == 3 {
            let c0 = lower_char_code(s.get_char(0));
            let c1 = lower_char_code(s.get_char(1));
            let c2 = lower_char_code(s.get_char(2));
            if c0 == 97 && c1 == 108 && c2 == 108 {
                return Ok(HistoryRange::All);
            }
        }
        Err(NwError::InvalidHistoryRange(s.to_owned()))
    }

    /// The canonical token of the range, as shown in report headers.
    pub fn label(&self) -> (r: String)
        ensures
            range_of_token(r@) == Some(*self),
    {
        proof {
            reveal_strlit("1M");
            reveal_strlit("6M");
            reveal_strlit("1Y");
            reveal_strlit("5Y");
            reveal_strlit("ALL");
            lemma_eq_ci_refl("1M"@);
            lemma_eq_ci_refl("6M"@);
            lemma_eq_ci_refl("1Y"@);
            lemma_eq_ci_refl("5Y"@);
            lemma_eq_ci_refl("ALL"@);
            lemma_eq_ci_ne("6M"@, "1M"@, 0);
            lemma_eq_ci_ne("1Y"@, "1M"@, 1);
            lemma_eq_ci_ne("1Y"@, "6M"@, 0);
            lemma_eq_ci_ne("5Y"@, "1M"@, 0);
            lemma_eq_ci_ne("5Y"@, "6M"@, 0);
            lemma_eq_ci_ne("5Y"@, "1Y"@, 0);
        }
        match self {
            HistoryRange::OneMonth => String::from_str("1M"),
            HistoryRange::SixMonths => String::from_str("6M"),
            HistoryRange::OneYear => String::from_str("1Y"),
            HistoryRange::FiveYears => String::from_str("5Y"),
            HistoryRange::All => String::from_str("ALL"),
        }
    }
}

proof fn lemma_eq_ci_refl(a: Seq<char>)
    ensures
        eq_ci(a, a),
{
}

proof fn lemma_eq_ci_ne(a: Seq<char>, b: Seq<char>, i: int)
    requires
        0 <= i < a.len(),
        i < b.len(),
        !chars_eq_ci(a[i], b[i]),
    ensures
        !eq_ci(a, b),
{
}

/// Exec mirror of [`lower_code`].
fn lower_char_code(c: char) -> (r: u32)
    ensures
        r == lower_code(c),
{
    let x = c as u32;
    if 65 <= x && x <= 90 {
        x + 32
    } else {
        x
    }
}

} // verus!
