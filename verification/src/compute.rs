//! Conversion, valuation, aggregation and range filtering.

use vstd::prelude::*;

use vstd::arithmetic::div_mod::{
    lemma_div_is_ordered_by_denominator, lemma_div_multiples_vanish, lemma_div_pos_is_pos,
};

use crate::error::NwError;
use crate::model::{
    assets_views, history_views, rate_of, rates_view, rows_views, snap_refs_views, snaps_views,
    Asset,
    AssetView, EntryView, HistoryRow, HistoryRowView, Portfolio, ShowRow, ShowRowView, Snapshot,
    SnapshotView,
};
use crate::calendar::{
    chrono_parsed, date_seq, days_in_month_s, format_ymd, months_back, parse_anchor,
    subtract_months, subtract_years,
};
use crate::model::HistoryRange;
use crate::strings::{lex_le, str_eq};
use crate::{usd_value, MAX_ENTRIES, PCT_FACTOR, SCALE, TOTAL_CAP, USD_CAP, VALUE_MAX};

verus! {

/// What converting `value` from `currency` to USD yields: the value itself
/// for USD, the scaled quotient for a quoted foreign currency, and the
/// missing currency code otherwise.
pub open spec fn to_usd_s(value: u64, currency: Seq<char>, rates: Seq<(Seq<char>, u64)>) -> Result<
    int,
    Seq<char>,
> {
    if currency == "USD"@ {
        Ok(value as int)
    } else {
        match rate_of(rates, currency) {
            Some(rate) => Ok(usd_value(value, rate)),
            None => Err(currency),
        }
    }
}

/// Convert a scaled native-currency amount to scaled USD with the
/// snapshot's rate table. USD amounts pass through unchanged; a foreign
/// currency without a quoted rate aborts the whole report.
pub fn to_usd(value: u64, currency: &str, rates: &Vec<(String, u64)>) -> (r: Result<u64, NwError>)
    requires
        value <= VALUE_MAX,
        currency@ != "USD"@ ==> (forall|i: int|
            0 <= i < rates@.len() ==> (#[trigger] rates@[i]).1 >= 1),
    ensures
        match to_usd_s(value, currency@, crate::model::rates_view(rates@)) {
            Ok(v) => r matches Ok(u) && u == v && v <= USD_CAP,
            Err(c) => r matches Err(NwError::RateMissing(cc)) && cc@ == c,
        },
{
    let ghost rv = crate::model::rates_view(rates@);
    if str_eq(currency, "USD") {
        return Ok(value);
    }
    let mut i: usize = 0;
    proof {
        assert(rv.skip(0) =~= rv);
    }
    while i < rates.len()
        invariant
            i <= rates.len(),
            rv == crate::model::rates_view(rates@),
            rv.len() == rates@.len(),
            currency@ != "USD"@,
            value <= VALUE_MAX,
            forall|k: int| 0 <= k < rates@.len() ==> (#[trigger] rates@[k]).1 >= 1,
            rate_of(rv, currency@) == rate_of(rv.skip(i as int), currency@),
        decreases rates.len() - i,
    {
        proof {
            assert(rv[i as int] == (rates@[i as int].0@, rates@[i as int].1));
            assert(rv.skip(i as int)[0] == rv[i as int]);
        }
        if str_eq(rates[i].0.as_str(), currency) {
            let rate = rates[i].1;
            proof {
                assert(rate_of(rv, currency@) == Some(rate));
            }
            let wide = (value as u128) * (SCALE as u128);
            let q = wide / (rate as u128);
            proof {
                assert(wide == (value as int) * (SCALE as int));
                assert(q == usd_value(value, rate));
                lemma_div_is_ordered_by_denominator((value as int) * (SCALE as int), 1, rate as int);
                assert((value as int) * (SCALE as int) / 1int == (value as int) * (SCALE as int));
                assert(q <= (value as int) * (SCALE as int));
                assert((value as int) * (SCALE as int) <= (VALUE_MAX as int) * (SCALE as int))
                    by (nonlinear_arith)
                    requires
                        value <= VALUE_MAX,
                ;
                lemma_div_pos_is_pos((value as int) * (SCALE as int), rate as int);
            }
            return Ok(q as u64);
        }
        proof {
            assert(rv.skip(i as int).skip(1) =~= rv.skip(i + 1));
        }
        i += 1;
    }
    proof {
        assert(rv.skip(rates@.len() as int).len() == 0);
    }
    Err(NwError::RateMissing(currency.to_owned()))
}

/// Law: converting a USD amount is the identity, whatever the rate table
/// holds.
pub proof fn lemma_to_usd_usd_passthrough(value: u64, rates: Seq<(Seq<char>, u64)>)
    ensures
        to_usd_s(value, "USD"@, rates) == Ok::<int, Seq<char>>(value as int),
{
}

/// Law: conversion fails exactly when the currency is not USD and the rate
/// table has no entry for it, and the failure names that currency.
pub proof fn lemma_to_usd_missing_rate(value: u64, currency: Seq<char>, rates: Seq<(Seq<char>, u64)>)
    ensures
        (to_usd_s(value, currency, rates) is Err) <==> (currency != "USD"@ && rate_of(
            rates,
            currency,
        ) is None),
        to_usd_s(value, currency, rates) matches Err(c) ==> c == currency,
{
}

/// Law: converting a rate through a table that quotes exactly that rate
/// yields exactly one dollar.
pub proof fn lemma_to_usd_rate_roundtrip(rate: u64, currency: Seq<char>)
    requires
        1 <= rate,
        currency != "USD"@,
    ensures
        to_usd_s(rate, currency, seq![(currency, rate)]) == Ok::<int, Seq<char>>(SCALE as int),
{
    let rates = seq![(currency, rate)];
    assert(rate_of(rates, currency) == Some(rate));
    lemma_div_multiples_vanish(SCALE as int, rate as int);
    assert((rate as int) * (SCALE as int) == (rate as int) * (SCALE as int));
    assert(usd_value(rate, rate) == (rate as int) * (SCALE as int) / (rate as int));
}

/// The asset a snapshot entry references, resolved by id; first match wins
/// (duplicate ids never arise, `add_asset` refuses them).
pub open spec fn find_asset(assets: Seq<AssetView>, id: Seq<char>) -> Option<AssetView>
    decreases assets.len(),
{
    if assets.len() == 0 {
        None
    } else if assets[0].id == id {
        Some(assets[0])
    } else {
        find_asset(assets.skip(1), id)
    }
}

/// Whether a category passes an optional exact-match filter.
pub open spec fn passes_filter(category: Seq<char>, filter: Option<Seq<char>>) -> bool {
    match filter {
        Some(f) => category == f,
        None => true,
    }
}

/// The report row an entry produces once its asset is resolved and its
/// value converted.
pub open spec fn row_of(a: AssetView, e: EntryView, usd: int) -> ShowRowView {
    ShowRowView {
        asset_name: a.name,
        currency: a.currency,
        native_value: e.value,
        usd_value: usd as u64,
        category: a.category,
    }
}

/// The grand total and rows the `show` report computes: entries with no
/// matching asset are skipped silently, entries filtered out by category
/// are skipped, and the first missing rate aborts everything.
pub open spec fn show_rows_s(
    entries: Seq<EntryView>,
    assets: Seq<AssetView>,
    rates: Seq<(Seq<char>, u64)>,
    filter: Option<Seq<char>>,
) -> Result<(int, Seq<ShowRowView>), Seq<char>>
    decreases entries.len(),
{
    if entries.len() == 0 {
        Ok((0, Seq::empty()))
    } else {
        let e = entries[0];
        let rest = show_rows_s(entries.skip(1), assets, rates, filter);
        match find_asset(assets, e.asset_id) {
            None => rest,
            Some(a) => {
                if !passes_filter(a.category, filter) {
                    rest
                } else {
                    match to_usd_s(e.value, a.currency, rates) {
                        Err(c) => Err(c),
                        Ok(v) => match rest {
                            Err(c) => Err(c),
                            Ok(p) => Ok((v + p.0, seq![row_of(a, e, v)] + p.1)),
                        },
                    }
                }
            },
        }
    }
}

/// A successful conversion of a bounded value through a positive rate
/// stays within [`USD_CAP`].
pub proof fn lemma_usd_bounds(value: u64, currency: Seq<char>, rates: Seq<(Seq<char>, u64)>)
    requires
        value <= VALUE_MAX,
        forall|i: int| 0 <= i < rates.len() ==> (#[trigger] rates[i]).1 >= 1,
    ensures
        to_usd_s(value, currency, rates) matches Ok(v) ==> 0 <= v <= USD_CAP,
{
    if currency != "USD"@ {
        lemma_rate_of_found(rates, currency);
        if let Some(rate) = rate_of(rates, currency) {
            lemma_div_is_ordered_by_denominator((value as int) * (SCALE as int), 1, rate as int);
            assert((value as int) * (SCALE as int) / 1int == (value as int) * (SCALE as int));
            assert((value as int) * (SCALE as int) <= (VALUE_MAX as int) * (SCALE as int))
                by (nonlinear_arith)
                requires
                    value <= VALUE_MAX,
            ;
            lemma_div_pos_is_pos((value as int) * (SCALE as int), rate as int);
        }
    }
}

/// A rate the lookup returns sits in the table.
proof fn lemma_rate_of_found(rates: Seq<(Seq<char>, u64)>, currency: Seq<char>)
    ensures
        rate_of(rates, currency) matches Some(rt) ==> exists|i: int|
            0 <= i < rates.len() && #[trigger] rates[i] == (currency, rt),
    decreases rates.len(),
{
    if rates.len() > 0 && rates[0].0 != currency {
        lemma_rate_of_found(rates.skip(1), currency);
        match rate_of(rates, currency) {
            Some(rt) => {
                let i = choose|i: int|
                    0 <= i < rates.skip(1).len() && #[trigger] rates.skip(1)[i] == (currency, rt);
                assert(rates[i + 1] == (currency, rt));
            },
            None => {},
        }
    }
}

/// Totals and rows of a well-formed snapshot stay within the caps, and
/// every row's USD value is bounded.
pub proof fn lemma_show_rows_bounds(
    entries: Seq<EntryView>,
    assets: Seq<AssetView>,
    rates: Seq<(Seq<char>, u64)>,
    filter: Option<Seq<char>>,
)
    requires
        forall|i: int| 0 <= i < entries.len() ==> (#[trigger] entries[i]).value <= VALUE_MAX,
        forall|i: int| 0 <= i < rates.len() ==> (#[trigger] rates[i]).1 >= 1,
    ensures
        show_rows_s(entries, assets, rates, filter) matches Ok(p) ==> 0 <= p.0 <= entries.len()
            * USD_CAP && p.1.len() <= entries.len() && (forall|k: int|
            0 <= k < p.1.len() ==> (#[trigger] p.1[k]).usd_value <= USD_CAP),
    decreases entries.len(),
{
    if entries.len() > 0 {
        let e = entries[0];
        assert(forall|i: int|
            0 <= i < entries.skip(1).len() ==> (#[trigger] entries.skip(1)[i]).value <= VALUE_MAX);
        lemma_show_rows_bounds(entries.skip(1), assets, rates, filter);
        match find_asset(assets, e.asset_id) {
            None => {},
            Some(a) => {
                if passes_filter(a.category, filter) {
                    lemma_usd_bounds(e.value, a.currency, rates);
                }
            },
        }
        assert(entries.skip(1).len() * USD_CAP == (entries.len() - 1) * USD_CAP);
        assert((entries.len() - 1) * USD_CAP + USD_CAP == entries.len() * USD_CAP)
            by (nonlinear_arith);
    }
}

/// Law: entries whose asset id matches no asset contribute nothing — a
/// snapshot made only of dangling entries yields a zero total and no rows.
pub proof fn lemma_dangling_entries_contribute_nothing(
    entries: Seq<EntryView>,
    assets: Seq<AssetView>,
    rates: Seq<(Seq<char>, u64)>,
    filter: Option<Seq<char>>,
)
    requires
        forall|i: int|
            0 <= i < entries.len() ==> find_asset(assets, (#[trigger] entries[i]).asset_id) is None,
    ensures
        show_rows_s(entries, assets, rates, filter) == Ok::<(int, Seq<ShowRowView>), Seq<char>>(
            (0, Seq::empty()),
        ),
    decreases entries.len(),
{
    if entries.len() > 0 {
        assert(forall|i: int|
            0 <= i < entries.skip(1).len() ==> find_asset(
                assets,
                (#[trigger] entries.skip(1)[i]).asset_id,
            ) is None);
        lemma_dangling_entries_contribute_nothing(entries.skip(1), assets, rates, filter);
    }
}

/// An optional borrowed filter, as a model value.
pub open spec fn filter_view(f: Option<&str>) -> Option<Seq<char>> {
    match f {
        Some(s) => Some(s@),
        None => None,
    }
}

/// A partial result (already-emitted total and rows) joined with the
/// outcome for the remaining entries.
pub open spec fn with_prefix(
    t0: int,
    rows0: Seq<ShowRowView>,
    rest: Result<(int, Seq<ShowRowView>), Seq<char>>,
) -> Result<(int, Seq<ShowRowView>), Seq<char>> {
    match rest {
        Ok(p) => Ok((t0 + p.0, rows0 + p.1)),
        Err(c) => Err(c),
    }
}

/// Position of the first asset with the given id, if any.
pub(crate) fn find_asset_idx(assets: &Vec<Asset>, id: &str) -> (r: Option<usize>)
    ensures
        match r {
            Some(j) => j < assets@.len() && find_asset(assets_views(assets@), id@) == Some(
                assets@[j as int]@,
            ) && assets@[j as int]@.id == id@ && (forall|k: int|
                0 <= k < j ==> (#[trigger] assets@[k])@.id != id@),
            None => find_asset(assets_views(assets@), id@) is None && (forall|k: int|
                0 <= k < assets@.len() ==> (#[trigger] assets@[k])@.id != id@),
        },
{
    let ghost av = assets_views(assets@);
    let mut i: usize = 0;
    proof {
        assert(av.skip(0) =~= av);
    }
    while i < assets.len()
        invariant
            i <= assets@.len(),
            av == assets_views(assets@),
            av.len() == assets@.len(),
            find_asset(av, id@) == find_asset(av.skip(i as int), id@),
            forall|k: int| 0 <= k < i ==> (#[trigger] assets@[k])@.id != id@,
        decreases assets@.len() - i,
    {
        proof {
            assert(av.skip(i as int)[0] == av[i as int]);
            assert(av[i as int] == assets@[i as int]@);
        }
        if str_eq(assets[i].id.as_str(), id) {
            return Some(i);
        }
        proof {
            assert(av.skip(i as int).skip(1) =~= av.skip(i + 1));
        }
        i += 1;
    }
    proof {
        assert(av.skip(assets@.len() as int).len() == 0);
    }
    None
}

/// Compute the `show` report rows and their grand total from a snapshot.
/// Entries referencing a removed asset are skipped silently; a category
/// filter drops non-matching rows from both the list and the total; a
/// missing rate aborts the whole report.
pub fn compute_show_rows(
    snapshot: &Snapshot,
    portfolio: &Portfolio,
    category_filter: Option<&str>,
) -> (r: Result<(u128, Vec<ShowRow>), NwError>)
    requires
        snapshot@.wf(),
    ensures
        match show_rows_s(
            snapshot@.entries,
            portfolio@.assets,
            snapshot@.rates,
            filter_view(category_filter),
        ) {
            Ok(p) => r matches Ok(q) && q.0 == p.0 && rows_views(q.1@) == p.1 && p.0 <= TOTAL_CAP,
            Err(c) => r matches Err(NwError::RateMissing(cc)) && cc@ == c,
        },
{
    let ghost entries_v = snapshot@.entries;
    let ghost assets_v = portfolio@.assets;
    let ghost rates_v = snapshot@.rates;
    let ghost fv = filter_view(category_filter);
    let ghost full = show_rows_s(entries_v, assets_v, rates_v, fv);
    proof {
        assert forall|k: int|
            0 <= k < snapshot.rates@.len() implies (#[trigger] snapshot.rates@[k]).1 >= 1 by {
            assert(rates_v[k] == (snapshot.rates@[k].0@, snapshot.rates@[k].1));
            assert(rates_v[k].1 >= 1);
        }
    }
    let mut rows: Vec<ShowRow> = Vec::new();
    let mut total: u128 = 0;
    let mut i: usize = 0;
    let n = snapshot.entries.len();
    proof {
        assert(entries_v.skip(0) =~= entries_v);
        assert(rows_views(rows@) =~= Seq::<ShowRowView>::empty());
        match full {
            Ok(p) => {
                assert(Seq::<ShowRowView>::empty() + p.1 =~= p.1);
            },
            Err(_) => {},
        }
    }
    while i < n
        invariant
            i <= n,
            n == entries_v.len(),
            entries_v == snapshot@.entries,
            assets_v == portfolio@.assets,
            rates_v == snapshot@.rates,
            fv == filter_view(category_filter),
            full == show_rows_s(entries_v, assets_v, rates_v, fv),
            snapshot@.wf(),
            n == snapshot.entries@.len(),
            forall|k: int|
                0 <= k < snapshot.rates@.len() ==> (#[trigger] snapshot.rates@[k]).1 >= 1,
            total <= i * USD_CAP,
            full == with_prefix(
                total as int,
                rows_views(rows@),
                show_rows_s(entries_v.skip(i as int), assets_v, rates_v, fv),
            ),
        decreases n - i,
    {
        let ghost sub = show_rows_s(entries_v.skip(i as int), assets_v, rates_v, fv);
        let ghost rest = show_rows_s(entries_v.skip(i + 1), assets_v, rates_v, fv);
        proof {
            assert(entries_v.skip(i as int)[0] == entries_v[i as int]);
            assert(entries_v.skip(i as int).skip(1) =~= entries_v.skip(i + 1));
            assert(entries_v[i as int] == snapshot.entries@[i as int]@);
            assert(entries_v[i as int].value <= VALUE_MAX);
        }
        let entry = &snapshot.entries[i];
        match find_asset_idx(&portfolio.assets, entry.asset_id.as_str()) {
            None => {},
            Some(j) => {
                let asset = &portfolio.assets[j];
                let keep = match category_filter {
                    Some(f) => str_eq(asset.category.as_str(), f),
                    None => true,
                };
                if keep {
                    match to_usd(entry.value, asset.currency.as_str(), &snapshot.rates) {
                        Err(e) => {
                            proof {
                                assert(to_usd_s(
                                    entries_v[i as int].value,
                                    asset@.currency,
                                    rates_v,
                                ) is Err);
                            }
                            return Err(e);
                        },
                        Ok(usd) => {
                            proof {
                                assert(total + usd <= (i + 1) * USD_CAP) by (nonlinear_arith)
                                    requires
                                        total <= i * USD_CAP,
                                        usd <= USD_CAP,
                                        i >= 0,
                                ;
                                assert((i + 1) * USD_CAP <= MAX_ENTRIES * USD_CAP)
                                    by (nonlinear_arith)
                                    requires
                                        i + 1 <= MAX_ENTRIES,
                                ;
                            }
                            total = total + usd as u128;
                            let ghost old_rows = rows_views(rows@);
                            rows.push(
                                ShowRow {
                                    asset_name: asset.name.clone(),
                                    currency: asset.currency.clone(),
                                    native_value: entry.value,
                                    usd_value: usd,
                                    category: asset.category.clone(),
                                },
                            );
                            proof {
                                assert(rows_views(rows@) =~= old_rows.push(
                                    row_of(asset@, entries_v[i as int], usd as int),
                                ));
                                match rest {
                                    Ok(p) => {
                                        assert(old_rows + (seq![
                                            row_of(asset@, entries_v[i as int], usd as int),
                                        ] + p.1) =~= rows_views(rows@) + p.1);
                                    },
                                    Err(_) => {},
                                }
                            }
                        },
                    }
                }
            },
        }
        i += 1;
    }
    proof {
        assert(entries_v.skip(n as int).len() == 0);
        match full {
            Ok(p) => {
                assert(rows_views(rows@) + Seq::<ShowRowView>::empty() =~= rows_views(rows@));
                assert(n * USD_CAP <= MAX_ENTRIES * USD_CAP) by (nonlinear_arith)
                    requires
                        n <= MAX_ENTRIES,
                ;
            },
            Err(_) => {},
        }
    }
    Ok((total, rows))
}

/// The grand total of a snapshot with no category filter.
pub open spec fn total_usd_s(snap: SnapshotView, assets: Seq<AssetView>) -> Result<int, Seq<char>> {
    match show_rows_s(snap.entries, assets, snap.rates, None) {
        Ok(p) => Ok(p.0),
        Err(c) => Err(c),
    }
}

/// Total USD value of a snapshot's entries, dangling entries skipped.
pub fn snapshot_total_usd(snapshot: &Snapshot, portfolio: &Portfolio) -> (r: Result<u128, NwError>)
    requires
        snapshot@.wf(),
    ensures
        match total_usd_s(snapshot@, portfolio@.assets) {
            Ok(t) => r matches Ok(u) && u == t && 0 <= t <= TOTAL_CAP,
            Err(c) => r matches Err(NwError::RateMissing(cc)) && cc@ == c,
        },
{
    proof {
        lemma_show_rows_bounds(snapshot@.entries, portfolio@.assets, snapshot@.rates, None);
    }
    match compute_show_rows(snapshot, portfolio, None) {
        Ok(p) => Ok(p.0),
        Err(e) => Err(e),
    }
}

/// Absolute and percentage change from one period's total to the next.
/// A zero previous total gives a zero percentage by definition, not an
/// error.
pub open spec fn change_s(prev: int, current: int) -> (int, int) {
    (
        current - prev,
        if prev == 0 {
            0
        } else if current >= prev {
            (current - prev) * (PCT_FACTOR as int) / prev
        } else {
            -((prev - current) * (PCT_FACTOR as int) / prev)
        },
    )
}

/// Period-over-period change: the absolute difference and the scaled
/// percentage of the previous total. The percentage is zero when the
/// previous total was exactly zero.
pub fn compute_change(prev: u128, current: u128) -> (r: (i128, i128))
    requires
        prev <= TOTAL_CAP,
        current <= TOTAL_CAP,
    ensures
        r.0 == current - prev,
        prev == 0 ==> r.1 == 0,
        prev > 0 && current >= prev ==> r.1 == (current - prev) * (PCT_FACTOR as int) / (
        prev as int),
        prev > 0 && current < prev ==> r.1 == -((prev - current) * (PCT_FACTOR as int) / (
        prev as int)),
        (r.0 as int, r.1 as int) == change_s(prev as int, current as int),
{
    let change = current as i128 - prev as i128;
    let pct: i128 = if prev == 0 {
        0
    } else if current >= prev {
        let diff = current - prev;
        proof {
            lemma_pct_bounds(diff as int, prev as int);
        }
        ((diff * (PCT_FACTOR as u128)) / prev) as i128
    } else {
        let diff = prev - current;
        proof {
            lemma_pct_bounds(diff as int, prev as int);
        }
        -(((diff * (PCT_FACTOR as u128)) / prev) as i128)
    };
    (change, pct)
}

/// The scaled percentage of a bounded difference fits a signed 128-bit
/// word.
proof fn lemma_pct_bounds(diff: int, prev: int)
    requires
        0 <= diff <= TOTAL_CAP,
        1 <= prev,
    ensures
        0 <= diff * (PCT_FACTOR as int) <= TOTAL_CAP * (PCT_FACTOR as int),
        0 <= diff * (PCT_FACTOR as int) / prev <= TOTAL_CAP * (PCT_FACTOR as int),
{
    assert(0 <= diff * (PCT_FACTOR as int) <= TOTAL_CAP * (PCT_FACTOR as int))
        by (nonlinear_arith)
        requires
            0 <= diff <= TOTAL_CAP,
    ;
    lemma_div_is_ordered_by_denominator(diff * (PCT_FACTOR as int), 1, prev);
    assert(diff * (PCT_FACTOR as int) / 1int == diff * (PCT_FACTOR as int));
    lemma_div_pos_is_pos(diff * (PCT_FACTOR as int), prev);
}

/// The change columns of a history row, given the previous total.
pub open spec fn change_fields(prev: Option<int>, t: int) -> (Option<i128>, Option<i128>) {
    match prev {
        None => (None, None),
        Some(p) => (Some(change_s(p, t).0 as i128), Some(change_s(p, t).1 as i128)),
    }
}

/// The rows of the `history` report: one per snapshot, in the given order,
/// each with that snapshot's grand total and the change against the row
/// before it. The first row, having no predecessor, has empty change
/// columns. A missing rate in any snapshot aborts the whole report.
pub open spec fn history_rows_s(
    snaps: Seq<SnapshotView>,
    assets: Seq<AssetView>,
    prev: Option<int>,
) -> Result<Seq<HistoryRowView>, Seq<char>>
    decreases snaps.len(),
{
    if snaps.len() == 0 {
        Ok(Seq::empty())
    } else {
        match total_usd_s(snaps[0], assets) {
            Err(c) => Err(c),
            Ok(t) => {
                let row = HistoryRowView {
                    date: snaps[0].date,
                    total_usd: t as u128,
                    change_usd: change_fields(prev, t).0,
                    change_pct: change_fields(prev, t).1,
                };
                match history_rows_s(snaps.skip(1), assets, Some(t)) {
                    Err(c) => Err(c),
                    Ok(rows) => Ok(seq![row] + rows),
                }
            },
        }
    }
}

/// Already-emitted rows joined with the outcome for the remaining
/// snapshots.
pub open spec fn with_rows(
    rows0: Seq<HistoryRowView>,
    rest: Result<Seq<HistoryRowView>, Seq<char>>,
) -> Result<Seq<HistoryRowView>, Seq<char>> {
    match rest {
        Ok(rs) => Ok(rows0 + rs),
        Err(c) => Err(c),
    }
}

/// An optional exec total, as a model value.
pub open spec fn opt_int(p: Option<u128>) -> Option<int> {
    match p {
        None => None,
        Some(v) => Some(v as int),
    }
}

/// Build the history rows for snapshots already selected and ordered by
/// the range filter (ascending by date).
pub fn compute_history_rows(snapshots: &[&Snapshot], portfolio: &Portfolio) -> (r: Result<
    Vec<HistoryRow>,
    NwError,
>)
    requires
        forall|i: int| 0 <= i < snapshots@.len() ==> (#[trigger] snapshots@[i])@.wf(),
    ensures
        match history_rows_s(snap_refs_views(snapshots@), portfolio@.assets, None) {
            Ok(rows) => r matches Ok(v) && history_views(v@) == rows,
            Err(c) => r matches Err(NwError::RateMissing(cc)) && cc@ == c,
        },
{
    let ghost sv = snap_refs_views(snapshots@);
    let ghost assets_v = portfolio@.assets;
    let ghost full = history_rows_s(sv, assets_v, None);
    let mut out: Vec<HistoryRow> = Vec::new();
    let mut prev_total: Option<u128> = None;
    let mut i: usize = 0;
    let n = snapshots.len();
    proof {
        assert(sv.skip(0) =~= sv);
        assert(history_views(out@) =~= Seq::<HistoryRowView>::empty());
        match full {
            Ok(rs) => {
                assert(Seq::<HistoryRowView>::empty() + rs =~= rs);
            },
            Err(_) => {},
        }
    }
    while i < n
        invariant
            i <= n,
            n == snapshots@.len(),
            sv == snap_refs_views(snapshots@),
            sv.len() == n,
            assets_v == portfolio@.assets,
            full == history_rows_s(sv, assets_v, None),
            forall|k: int| 0 <= k < snapshots@.len() ==> (#[trigger] snapshots@[k])@.wf(),
            match prev_total {
                Some(p) => p <= TOTAL_CAP,
                None => true,
            },
            full == with_rows(
                history_views(out@),
                history_rows_s(sv.skip(i as int), assets_v, opt_int(prev_total)),
            ),
        decreases n - i,
    {
        let ghost rest = history_rows_s(sv.skip(i + 1), assets_v, opt_int(prev_total));
        proof {
            assert(sv.skip(i as int)[0] == sv[i as int]);
            assert(sv.skip(i as int).skip(1) =~= sv.skip(i + 1));
            assert(sv[i as int] == snapshots@[i as int]@);
        }
        let snapshot: &Snapshot = snapshots[i];
        match snapshot_total_usd(snapshot, portfolio) {
            Err(e) => {
                return Err(e);
            },
            Ok(t) => {
                let (change_usd, change_pct) = match prev_total {
                    None => (None, None),
                    Some(p) => {
                        let (cu, cp) = compute_change(p, t);
                        (Some(cu), Some(cp))
                    },
                };
                let ghost old_rows = history_views(out@);
                let ghost row = HistoryRowView {
                    date: sv[i as int].date,
                    total_usd: t as u128,
                    change_usd: change_fields(opt_int(prev_total), t as int).0,
                    change_pct: change_fields(opt_int(prev_total), t as int).1,
                };
                out.push(
                    HistoryRow { date: snapshot.date.clone(), total_usd: t, change_usd, change_pct },
                );
                prev_total = Some(t);
                proof {
                    assert(history_views(out@) =~= old_rows.push(row));
                    match history_rows_s(sv.skip(i + 1), assets_v, Some(t as int)) {
                        Ok(rs) => {
                            assert(old_rows + (seq![row] + rs) =~= history_views(out@) + rs);
                        },
                        Err(_) => {},
                    }
                }
            },
        }
        i += 1;
    }
    proof {
        assert(sv.skip(n as int).len() == 0);
        match full {
            Ok(rs) => {
                assert(history_views(out@) + Seq::<HistoryRowView>::empty() =~= history_views(
                    out@,
                ));
            },
            Err(_) => {},
        }
    }
    Ok(out)
}

/// Sum of the USD values of the rows in one category.
pub open spec fn sum_usd_in(rows: Seq<ShowRowView>, cat: Seq<char>) -> int
    decreases rows.len(),
{
    if rows.len() == 0 {
        0
    } else {
        (if rows[0].category == cat {
            rows[0].usd_value as int
        } else {
            0
        }) + sum_usd_in(rows.skip(1), cat)
    }
}

/// Sum of the USD values of all rows.
pub open spec fn sum_usd_all(rows: Seq<ShowRowView>) -> int
    decreases rows.len(),
{
    if rows.len() == 0 {
        0
    } else {
        rows[0].usd_value + sum_usd_all(rows.skip(1))
    }
}

proof fn lemma_sum_usd_in_push(rows: Seq<ShowRowView>, x: ShowRowView, cat: Seq<char>)
    ensures
        sum_usd_in(rows.push(x), cat) == sum_usd_in(rows, cat) + (if x.category == cat {
            x.usd_value as int
        } else {
            0
        }),
    decreases rows.len(),
{
    if rows.len() == 0 {
        assert(rows.push(x).len() == 1);
        assert(rows.push(x)[0] == x);
        assert(rows.push(x).skip(1) =~= Seq::<ShowRowView>::empty());
        assert(sum_usd_in(rows.push(x).skip(1), cat) == 0);
        assert(sum_usd_in(rows, cat) == 0);
        assert(sum_usd_in(rows.push(x), cat) == (if x.category == cat {
            x.usd_value as int
        } else {
            0
        }) + sum_usd_in(rows.push(x).skip(1), cat));
    } else {
        assert(rows.push(x)[0] == rows[0]);
        assert(rows.push(x).skip(1) =~= rows.skip(1).push(x));
        lemma_sum_usd_in_push(rows.skip(1), x, cat);
        assert(sum_usd_in(rows.push(x), cat) == (if rows[0].category == cat {
            rows[0].usd_value as int
        } else {
            0
        }) + sum_usd_in(rows.push(x).skip(1), cat));
        assert(sum_usd_in(rows, cat) == (if rows[0].category == cat {
            rows[0].usd_value as int
        } else {
            0
        }) + sum_usd_in(rows.skip(1), cat));
    }
}

/// A category's subtotal never exceeds the sum over all rows, and both are
/// bounded by the row count times the largest USD value a row can carry.
pub proof fn lemma_sum_usd_in_le_all(rows: Seq<ShowRowView>, cat: Seq<char>)
    ensures
        0 <= sum_usd_in(rows, cat) <= sum_usd_all(rows),
        sum_usd_all(rows) <= rows.len() * (u64::MAX as int),
    decreases rows.len(),
{
    if rows.len() > 0 {
        lemma_sum_usd_in_le_all(rows.skip(1), cat);
        assert(rows.skip(1).len() * (u64::MAX as int) == (rows.len() - 1) * (u64::MAX as int));
        assert((rows.len() - 1) * (u64::MAX as int) + (u64::MAX as int) == rows.len() * (
        u64::MAX as int)) by (nonlinear_arith);
    }
}

/// Law: the grand total a report returns is exactly the sum of the USD
/// values of its rows.
pub proof fn lemma_total_is_row_sum(
    entries: Seq<EntryView>,
    assets: Seq<AssetView>,
    rates: Seq<(Seq<char>, u64)>,
    filter: Option<Seq<char>>,
)
    requires
        forall|i: int| 0 <= i < entries.len() ==> (#[trigger] entries[i]).value <= VALUE_MAX,
        forall|i: int| 0 <= i < rates.len() ==> (#[trigger] rates[i]).1 >= 1,
    ensures
        show_rows_s(entries, assets, rates, filter) matches Ok(p) ==> p.0 == sum_usd_all(p.1),
    decreases entries.len(),
{
    if entries.len() > 0 {
        let e = entries[0];
        assert(forall|i: int|
            0 <= i < entries.skip(1).len() ==> (#[trigger] entries.skip(1)[i]).value <= VALUE_MAX);
        lemma_total_is_row_sum(entries.skip(1), assets, rates, filter);
        match find_asset(assets, e.asset_id) {
            None => {},
            Some(a) => {
                if passes_filter(a.category, filter) {
                    match to_usd_s(e.value, a.currency, rates) {
                        Err(_) => {},
                        Ok(v) => {
                            lemma_usd_bounds(e.value, a.currency, rates);
                            match show_rows_s(entries.skip(1), assets, rates, filter) {
                                Err(_) => {},
                                Ok(p) => {
                                    let row = row_of(a, e, v);
                                    assert((seq![row] + p.1).skip(1) =~= p.1);
                                },
                            }
                        },
                    }
                }
            },
        }
    }
}

/// Pairs of category name and number, as model values.
pub open spec fn pairs_view(s: Seq<(String, u128)>) -> Seq<(Seq<char>, u128)> {
    s.map(|i: int, p: (String, u128)| (p.0@, p.1))
}

/// Whether some pair in the grouping carries this category as its key.
pub open spec fn has_key(r: Seq<(String, u128)>, cat: Seq<char>) -> bool
    decreases r.len(),
{
    if r.len() == 0 {
        false
    } else {
        r[0].0@ == cat || has_key(r.skip(1), cat)
    }
}

/// Whether some row carries this category.
pub open spec fn has_category(rv: Seq<ShowRowView>, cat: Seq<char>) -> bool
    decreases rv.len(),
{
    if rv.len() == 0 {
        false
    } else {
        rv[0].category == cat || has_category(rv.skip(1), cat)
    }
}

proof fn lemma_has_key_push(r: Seq<(String, u128)>, p: (String, u128), cat: Seq<char>)
    ensures
        has_key(r.push(p), cat) == (has_key(r, cat) || p.0@ == cat),
    decreases r.len(),
{
    if r.len() == 0 {
        assert(r.push(p)[0] == p);
        assert(r.push(p).skip(1) =~= Seq::<(String, u128)>::empty());
        assert(has_key(r.push(p), cat) == (p.0@ == cat || has_key(r.push(p).skip(1), cat)));
    } else {
        assert(r.push(p)[0] == r[0]);
        assert(r.push(p).skip(1) =~= r.skip(1).push(p));
        lemma_has_key_push(r.skip(1), p, cat);
        assert(has_key(r.push(p), cat) == (r[0].0@ == cat || has_key(r.skip(1).push(p), cat)));
        assert(has_key(r, cat) == (r[0].0@ == cat || has_key(r.skip(1), cat)));
    }
}

proof fn lemma_not_has_key(r: Seq<(String, u128)>, cat: Seq<char>)
    requires
        forall|a: int| 0 <= a < r.len() ==> (#[trigger] r[a]).0@ != cat,
    ensures
        !has_key(r, cat),
    decreases r.len(),
{
    if r.len() > 0 {
        assert(forall|a: int| 0 <= a < r.skip(1).len() ==> (#[trigger] r.skip(1)[a]).0@ != cat);
        lemma_not_has_key(r.skip(1), cat);
    }
}

proof fn lemma_has_key_same_keys(r1: Seq<(String, u128)>, r2: Seq<(String, u128)>, cat: Seq<char>)
    requires
        r1.len() == r2.len(),
        forall|a: int| 0 <= a < r1.len() ==> (#[trigger] r1[a]).0 == r2[a].0,
    ensures
        has_key(r1, cat) == has_key(r2, cat),
    decreases r1.len(),
{
    if r1.len() > 0 {
        assert(forall|a: int|
            0 <= a < r1.skip(1).len() ==> (#[trigger] r1.skip(1)[a]).0 == r2.skip(1)[a].0);
        lemma_has_key_same_keys(r1.skip(1), r2.skip(1), cat);
    }
}

proof fn lemma_has_key_at(r: Seq<(String, u128)>, j: int)
    requires
        0 <= j < r.len(),
    ensures
        has_key(r, r[j].0@),
    decreases r.len(),
{
    if j > 0 {
        lemma_has_key_at(r.skip(1), j - 1);
        assert(r.skip(1)[j - 1] == r[j]);
    }
}

proof fn lemma_has_category_push(rv: Seq<ShowRowView>, x: ShowRowView, cat: Seq<char>)
    ensures
        has_category(rv.push(x), cat) == (has_category(rv, cat) || x.category == cat),
    decreases rv.len(),
{
    if rv.len() == 0 {
        assert(rv.push(x)[0] == x);
        assert(rv.push(x).skip(1) =~= Seq::<ShowRowView>::empty());
        assert(has_category(rv.push(x), cat) == (x.category == cat || has_category(
            rv.push(x).skip(1),
            cat,
        )));
    } else {
        assert(rv.push(x)[0] == rv[0]);
        assert(rv.push(x).skip(1) =~= rv.skip(1).push(x));
        lemma_has_category_push(rv.skip(1), x, cat);
        assert(has_category(rv.push(x), cat) == (rv[0].category == cat || has_category(
            rv.skip(1).push(x),
            cat,
        )));
        assert(has_category(rv, cat) == (rv[0].category == cat || has_category(rv.skip(1), cat)));
    }
}

/// The grouping invariant: keys are unique, each key's value is its
/// category's subtotal over the first `i` rows, and the keys are exactly
/// the categories of the first `i` rows.
pub open spec fn grouped_upto(r: Seq<(String, u128)>, rv: Seq<ShowRowView>, i: int) -> bool {
    &&& (forall|a: int, b: int| 0 <= a < b < r.len() ==> (#[trigger] r[a]).0@ != (#[trigger] r[b]).0@)
    &&& (forall|a: int| 0 <= a < r.len() ==> (#[trigger] r[a]).1 == sum_usd_in(rv.take(i), r[a].0@))
    &&& (forall|a: int| 0 <= a < r.len() ==> has_category(rv.take(i), (#[trigger] r[a]).0@))
    &&& (forall|k: int| 0 <= k < i ==> has_key(r, (#[trigger] rv[k]).category))
}

/// Folding row `i` into the key it already has keeps the grouping
/// invariant.
proof fn lemma_grouped_fold_existing(
    old_r: Seq<(String, u128)>,
    new_r: Seq<(String, u128)>,
    rv: Seq<ShowRowView>,
    i: int,
    j: int,
)
    requires
        0 <= i < rv.len(),
        0 <= j < old_r.len(),
        grouped_upto(old_r, rv, i),
        old_r[j].0@ == rv[i].category,
        old_r[j].1 + rv[i].usd_value <= u128::MAX,
        new_r == old_r.update(j, (old_r[j].0, (old_r[j].1 + rv[i].usd_value) as u128)),
    ensures
        grouped_upto(new_r, rv, i + 1),
{
    assert(rv.take(i + 1) =~= rv.take(i).push(rv[i]));
    assert(forall|a: int| 0 <= a < new_r.len() ==> (#[trigger] new_r[a]).0 == old_r[a].0);
    assert forall|a: int| 0 <= a < new_r.len() implies (#[trigger] new_r[a]).1 == sum_usd_in(
        rv.take(i + 1),
        new_r[a].0@,
    ) by {
        lemma_sum_usd_in_push(rv.take(i), rv[i], new_r[a].0@);
        if a != j {
            assert(new_r[a] == old_r[a]);
            assert(old_r[a].0@ != old_r[j].0@);
        }
    }
    assert forall|a: int| 0 <= a < new_r.len() implies has_category(
        rv.take(i + 1),
        (#[trigger] new_r[a]).0@,
    ) by {
        lemma_has_category_push(rv.take(i), rv[i], new_r[a].0@);
        assert(has_category(rv.take(i), old_r[a].0@));
    }
    assert forall|k: int| 0 <= k < i + 1 implies has_key(
        new_r,
        (#[trigger] rv[k]).category,
    ) by {
        if k < i {
            lemma_has_key_same_keys(old_r, new_r, rv[k].category);
        } else {
            lemma_has_key_at(new_r, j);
        }
    }
}

/// Opening a fresh key for row `i` keeps the grouping invariant.
proof fn lemma_grouped_fold_new(
    old_r: Seq<(String, u128)>,
    new_r: Seq<(String, u128)>,
    rv: Seq<ShowRowView>,
    i: int,
    p: (String, u128),
)
    requires
        0 <= i < rv.len(),
        grouped_upto(old_r, rv, i),
        forall|a: int| 0 <= a < old_r.len() ==> (#[trigger] old_r[a]).0@ != rv[i].category,
        p.0@ == rv[i].category,
        p.1 == rv[i].usd_value,
        new_r == old_r.push(p),
    ensures
        grouped_upto(new_r, rv, i + 1),
{
    assert(rv.take(i + 1) =~= rv.take(i).push(rv[i]));
    let last = old_r.len() as int;
    assert(forall|a: int| 0 <= a < last ==> (#[trigger] new_r[a]) == old_r[a]);
    assert forall|a: int| 0 <= a < new_r.len() implies (#[trigger] new_r[a]).1 == sum_usd_in(
        rv.take(i + 1),
        new_r[a].0@,
    ) by {
        lemma_sum_usd_in_push(rv.take(i), rv[i], new_r[a].0@);
        if a == last {
            lemma_not_has_key(old_r, rv[i].category);
            assert forall|k: int| 0 <= k < rv.take(i).len() implies (#[trigger] rv.take(
                i,
            )[k]).category != rv[i].category by {
                assert(rv.take(i)[k] == rv[k]);
                assert(has_key(old_r, rv[k].category));
            }
            lemma_sum_usd_in_of_absent(rv.take(i), rv[i].category);
        }
    }
    assert forall|a: int| 0 <= a < new_r.len() implies has_category(
        rv.take(i + 1),
        (#[trigger] new_r[a]).0@,
    ) by {
        lemma_has_category_push(rv.take(i), rv[i], new_r[a].0@);
        if a < last {
            assert(has_category(rv.take(i), old_r[a].0@));
        }
    }
    assert forall|k: int| 0 <= k < i + 1 implies has_key(
        new_r,
        (#[trigger] rv[k]).category,
    ) by {
        lemma_has_key_push(old_r, p, rv[k].category);
    }
}

/// Group the rows' USD values by category: one pair per distinct category,
/// in first-appearance order, carrying that category's subtotal. The keys
/// are exactly the categories the rows carry, each exactly once.
pub fn category_totals(rows: &Vec<ShowRow>) -> (r: Vec<(String, u128)>)
    ensures
        grouped_upto(r@, rows_views(rows@), rows@.len() as int),
        forall|a: int|
            0 <= a < r@.len() ==> (#[trigger] r@[a]).1 == sum_usd_in(rows_views(rows@), r@[a].0@),
{
    let ghost rv = rows_views(rows@);
    let mut r: Vec<(String, u128)> = Vec::new();
    let mut i: usize = 0;
    let n = rows.len();
    proof {
        assert(rv.take(0) =~= Seq::<ShowRowView>::empty());
    }
    while i < n
        invariant
            i <= n,
            n == rows@.len(),
            rv == rows_views(rows@),
            rv.len() == n,
            grouped_upto(r@, rv, i as int),
        decreases n - i,
    {
        proof {
            assert(rv[i as int] == rows@[i as int]@);
        }
        let row = &rows[i];
        let usd = row.usd_value;
        let mut j: usize = 0;
        let m = r.len();
        let mut found = false;
        while j < m && !found
            invariant
                j <= m,
                m == r@.len(),
                !found ==> forall|a: int| 0 <= a < j ==> (#[trigger] r@[a]).0@ != row.category@,
                found ==> j < m && r@[j as int].0@ == row.category@,
            decreases m - j + (if found { 0int } else { 1int }),
        {
            if str_eq(r[j].0.as_str(), row.category.as_str()) {
                found = true;
            } else {
                j += 1;
            }
        }
        if found {
            let ghost old_r = r@;
            proof {
                lemma_sum_usd_in_le_all(rv.take(i as int), old_r[j as int].0@);
                assert(rv.take(i as int).len() == i);
                assert(i * (u64::MAX as int) + (u64::MAX as int) < u128::MAX) by (nonlinear_arith)
                    requires
                        0 <= i < 0x1_0000_0000_0000_0000,
                ;
            }
            let old_pair = r.remove(j);
            let new_total = old_pair.1 + usd as u128;
            r.insert(j, (old_pair.0, new_total));
            proof {
                assert(r@ =~= old_r.update(j as int, (old_r[j as int].0, new_total)));
                lemma_grouped_fold_existing(old_r, r@, rv, i as int, j as int);
            }
        } else {
            let ghost old_r = r@;
            r.push((row.category.clone(), usd as u128));
            proof {
                lemma_grouped_fold_new(old_r, r@, rv, i as int, r@[r@.len() - 1]);
            }
        }
        i += 1;
    }
    proof {
        assert(rv.take(n as int) =~= rv);
    }
    r
}

/// A category no row mentions sums to zero.
proof fn lemma_sum_usd_in_of_absent(rows: Seq<ShowRowView>, cat: Seq<char>)
    requires
        forall|i: int| 0 <= i < rows.len() ==> (#[trigger] rows[i]).category != cat,
    ensures
        sum_usd_in(rows, cat) == 0,
    decreases rows.len(),
{
    if rows.len() > 0 {
        assert(forall|i: int|
            0 <= i < rows.skip(1).len() ==> (#[trigger] rows.skip(1)[i]).category != cat);
        lemma_sum_usd_in_of_absent(rows.skip(1), cat);
    }
}

/// The scaled percentage `total` is of `grand`.
pub open spec fn pct_of(total: int, grand: int) -> int
    recommends
        grand > 0,
{
    total * (PCT_FACTOR as int) / grand
}

/// The allocation pairs before sorting: each category with its percentage.
pub open spec fn alloc_pcts(totals: Seq<(Seq<char>, u128)>, grand: int) -> Seq<(Seq<char>, u128)> {
    totals.map(|i: int, p: (Seq<char>, u128)| (p.0, pct_of(p.1 as int, grand) as u128))
}

/// Allocation percentages per category, sorted non-increasing by
/// percentage. A zero grand total yields an empty allocation: a zero-total
/// portfolio has no meaningful split.
pub fn compute_allocation(category_totals: &Vec<(String, u128)>, grand_total: u128) -> (r: Vec<
    (String, u128),
>)
    requires
        forall|i: int| 0 <= i < category_totals@.len() ==> (#[trigger] category_totals@[i]).1 <= TOTAL_CAP,
    ensures
        grand_total == 0 ==> r@.len() == 0,
        grand_total > 0 ==> pairs_view(r@).to_multiset() == alloc_pcts(
            pairs_view(category_totals@),
            grand_total as int,
        ).to_multiset(),
        grand_total > 0 ==> r@.len() == category_totals@.len(),
        forall|a: int, b: int| 0 <= a < b < r@.len() ==> (#[trigger] r@[a]).1 >= (#[trigger] r@[b]).1,
{
    broadcast use vstd::seq_lib::group_to_multiset_ensures;

    if grand_total == 0 {
        return Vec::new();
    }
    let ghost target = alloc_pcts(pairs_view(category_totals@), grand_total as int);
    let mut work: Vec<(String, u128)> = Vec::new();
    let mut i: usize = 0;
    let n = category_totals.len();
    while i < n
        invariant
            i <= n,
            n == category_totals@.len(),
            grand_total > 0,
            forall|k: int|
                0 <= k < category_totals@.len() ==> (#[trigger] category_totals@[k]).1 <= TOTAL_CAP,
            target == alloc_pcts(pairs_view(category_totals@), grand_total as int),
            target.len() == n,
            work@.len() == i,
            forall|k: int| 0 <= k < i ==> pairs_view(work@)[k] == target[k],
        decreases n - i,
    {
        let total = category_totals[i].1;
        proof {
            assert(pairs_view(category_totals@)[i as int] == (
                category_totals@[i as int].0@,
                category_totals@[i as int].1,
            ));
            assert((total as int) * (PCT_FACTOR as int) <= TOTAL_CAP * (PCT_FACTOR as int))
                by (nonlinear_arith)
                requires
                    total <= TOTAL_CAP,
            ;
            lemma_div_pos_is_pos((total as int) * (PCT_FACTOR as int), grand_total as int);
            lemma_div_is_ordered_by_denominator(
                (total as int) * (PCT_FACTOR as int),
                1,
                grand_total as int,
            );
            assert((total as int) * (PCT_FACTOR as int) / 1int == (total as int) * (
            PCT_FACTOR as int));
        }
        let pct = (total * (PCT_FACTOR as u128)) / grand_total;
        let ghost old_work = pairs_view(work@);
        work.push((category_totals[i].0.clone(), pct));
        proof {
            assert(pairs_view(work@) =~= old_work.push((category_totals@[i as int].0@, pct)));
        }
        i += 1;
    }
    proof {
        assert(pairs_view(work@) =~= target);
    }
    // Selection sort, descending by percentage: repeatedly move the largest
    // remaining pair to the output.
    let mut out: Vec<(String, u128)> = Vec::new();
    while work.len() > 0
        invariant
            pairs_view(out@).to_multiset().add(pairs_view(work@).to_multiset())
                == target.to_multiset(),
            out@.len() + work@.len() == target.len(),
            forall|a: int, b: int|
                0 <= a < b < out@.len() ==> (#[trigger] out@[a]).1 >= (#[trigger] out@[b]).1,
            forall|a: int, k: int|
                0 <= a < out@.len() && 0 <= k < work@.len() ==> (#[trigger] out@[a]).1
                    >= (#[trigger] work@[k]).1,
        decreases work@.len(),
    {
        let mut best: usize = 0;
        let mut j: usize = 1;
        while j < work.len()
            invariant
                best < j <= work@.len(),
                work@.len() > 0,
                forall|k: int| 0 <= k < j ==> (#[trigger] work@[k]).1 <= work@[best as int].1,
            decreases work@.len() - j,
        {
            if work[j].1 > work[best].1 {
                best = j;
            }
            j += 1;
        }
        let ghost old_work_pairs = pairs_view(work@);
        let ghost old_out_pairs = pairs_view(out@);
        let ghost xv = old_work_pairs[best as int];
        let x = work.remove(best);
        out.push(x);
        proof {
            broadcast use vstd::multiset::group_multiset_axioms;

            assert(pairs_view(work@) =~= old_work_pairs.remove(best as int));
            assert(pairs_view(out@) =~= old_out_pairs.push(xv));
            vstd::seq_lib::to_multiset_remove(old_work_pairs, best as int);
            vstd::seq_lib::to_multiset_build(old_out_pairs, xv);
            assert(old_work_pairs.to_multiset().count(xv) > 0) by {
                vstd::seq_lib::to_multiset_contains(old_work_pairs, xv);
                assert(old_work_pairs.contains(xv));
            }
            assert(pairs_view(out@).to_multiset().add(pairs_view(work@).to_multiset())
                =~= old_out_pairs.to_multiset().add(old_work_pairs.to_multiset()));
        }
    }
    out
}

/// Day clamped to the destination month's length.
pub open spec fn clamp_day(d: int, dim: int) -> int {
    if d <= dim {
        d
    } else {
        dim
    }
}

/// The cutoff date of a range anchored at (y, m, d): one or six months
/// back, or one or five years back, day clamped; `All` needs no cutoff.
pub open spec fn cutoff_ymd(range: HistoryRange, y: int, m: int, d: int) -> (int, int, int) {
    match range {
        HistoryRange::OneMonth => {
            let p = months_back(y, m, 1);
            (p.0, p.1, clamp_day(d, days_in_month_s(p.0, p.1)))
        },
        HistoryRange::SixMonths => {
            let p = months_back(y, m, 6);
            (p.0, p.1, clamp_day(d, days_in_month_s(p.0, p.1)))
        },
        HistoryRange::OneYear => (y - 1, m, clamp_day(d, days_in_month_s(y - 1, m))),
        HistoryRange::FiveYears => (y - 5, m, clamp_day(d, days_in_month_s(y - 5, m))),
        HistoryRange::All => (y, m, d),
    }
}

/// The cutoff date as a zero-padded ISO-8601 string.
pub open spec fn cutoff_str(range: HistoryRange, y: int, m: int, d: int) -> Seq<char> {
    let c = cutoff_ymd(range, y, m, d);
    date_seq(c.0, c.1, c.2)
}

/// An anchor the filter can use: it parsed, and its year leaves room for
/// the subtraction and fits the four-digit ISO form.
pub open spec fn anchor_usable(p: Option<(i32, u32, u32)>) -> bool {
    match p {
        Some(t) => 6 <= t.0 <= 9999,
        None => false,
    }
}

/// Whether a snapshot with this date is retained: `All` keeps everything,
/// an unusable anchor keeps everything (the documented fallback), and
/// otherwise the date must be on or after the cutoff — the boundary date
/// itself is included.
pub open spec fn in_range(date: Seq<char>, range: HistoryRange, p: Option<(i32, u32, u32)>) -> bool {
    if range == HistoryRange::All {
        true
    } else {
        match p {
            None => true,
            Some(t) => {
                if !(6 <= t.0 <= 9999) {
                    true
                } else {
                    lex_le(cutoff_str(range, t.0 as int, t.1 as int, t.2 as int), date)
                }
            },
        }
    }
}

/// The snapshots the filter retains, in their original order.
pub open spec fn filtered_snaps(
    snaps: Seq<SnapshotView>,
    range: HistoryRange,
    p: Option<(i32, u32, u32)>,
) -> Seq<SnapshotView>
    decreases snaps.len(),
{
    if snaps.len() == 0 {
        Seq::empty()
    } else {
        let rest = filtered_snaps(snaps.drop_last(), range, p);
        if in_range(snaps.last().date, range, p) {
            rest.push(snaps.last())
        } else {
            rest
        }
    }
}

/// Law: with range `All` every snapshot is retained, whatever the anchor
/// holds — even a string that does not parse as a date.
pub proof fn lemma_filter_all_keeps_everything(
    snaps: Seq<SnapshotView>,
    p: Option<(i32, u32, u32)>,
)
    ensures
        filtered_snaps(snaps, HistoryRange::All, p) == snaps,
    decreases snaps.len(),
{
    if snaps.len() > 0 {
        lemma_filter_all_keeps_everything(snaps.drop_last(), p);
        assert(in_range(snaps.last().date, HistoryRange::All, p));
        assert(snaps.drop_last().push(snaps.last()) =~= snaps);
    }
}

/// Law: a snapshot dated exactly on the cutoff is retained (the boundary
/// is inclusive).
pub proof fn lemma_cutoff_boundary_included(
    date: Seq<char>,
    range: HistoryRange,
    p: Option<(i32, u32, u32)>,
)
    requires
        p matches Some(t) && date == cutoff_str(range, t.0 as int, t.1 as int, t.2 as int),
    ensures
        in_range(date, range, p),
{
    crate::strings::lemma_lex_le_refl(date);
}

/// Select the snapshots within the symbolic range, anchored at `today`
/// (`YYYY-MM-DD`). `All` returns every snapshot without touching the
/// anchor; an anchor that does not parse as a usable date degrades to
/// returning every snapshot. Order is preserved.
pub fn filter_by_range<'a>(snapshots: &'a [Snapshot], range: HistoryRange, today: &str) -> (r: Vec<
    &'a Snapshot,
>)
    ensures
        snap_refs_views(r@) == filtered_snaps(snaps_views(snapshots@), range, chrono_parsed(
            today@,
        )),
{
    let ghost parsed = chrono_parsed(today@);
    let ghost sv = snaps_views(snapshots@);
    let mut cutoff: Option<String> = None;
    if !(matches!(range, HistoryRange::All)) {
        match parse_anchor(today) {
            Some((y, m, d)) => {
                if 6 <= y && y <= 9999 {
                    let c = match range {
                        HistoryRange::OneMonth => subtract_months(y, m, d, 1),
                        HistoryRange::SixMonths => subtract_months(y, m, d, 6),
                        HistoryRange::OneYear => subtract_years(y, m, d, 1),
                        HistoryRange::FiveYears => subtract_years(y, m, d, 5),
                        HistoryRange::All => (y, m, d),
                    };
                    proof {
                        assert((c.0 as int, c.1 as int, c.2 as int) == cutoff_ymd(
                            range,
                            y as int,
                            m as int,
                            d as int,
                        ));
                    }
                    cutoff = Some(format_ymd(c.0, c.1, c.2));
                }
            },
            None => {},
        }
    }
    let mut result: Vec<&'a Snapshot> = Vec::new();
    let mut i: usize = 0;
    let n = snapshots.len();
    proof {
        assert(sv.take(0) =~= Seq::<SnapshotView>::empty());
        assert(snap_refs_views(result@) =~= Seq::<SnapshotView>::empty());
    }
    while i < n
        invariant
            i <= n,
            n == snapshots@.len(),
            sv == snaps_views(snapshots@),
            sv.len() == n,
            parsed == chrono_parsed(today@),
            match cutoff {
                Some(cs) => range != HistoryRange::All && anchor_usable(parsed) && (
                parsed matches Some(t) && cs@ == cutoff_str(
                    range,
                    t.0 as int,
                    t.1 as int,
                    t.2 as int,
                )),
                None => range == HistoryRange::All || !anchor_usable(parsed),
            },
            snap_refs_views(result@) == filtered_snaps(sv.take(i as int), range, parsed),
        decreases n - i,
    {
        proof {
            assert(sv[i as int] == snapshots@[i as int]@);
            assert(sv.take(i + 1).drop_last() =~= sv.take(i as int));
            assert(sv.take(i + 1).last() == sv[i as int]);
        }
        let snapshot = &snapshots[i];
        let keep = match &cutoff {
            Some(cs) => crate::strings::str_le(cs.as_str(), snapshot.date.as_str()),
            None => true,
        };
        proof {
            assert(keep == in_range(sv[i as int].date, range, parsed));
        }
        if keep {
            let ghost old_refs = snap_refs_views(result@);
            result.push(snapshot);
            proof {
                assert(snap_refs_views(result@) =~= old_refs.push(sv[i as int]));
            }
        }
        i += 1;
    }
    proof {
        assert(sv.take(n as int) =~= sv);
    }
    result
}

/// Sum of the numbers in a sequence of (category, number) pairs.
pub open spec fn sum_values(ps: Seq<(Seq<char>, u128)>) -> int
    decreases ps.len(),
{
    if ps.len() == 0 {
        0
    } else {
        ps[0].1 + sum_values(ps.skip(1))
    }
}

/// No element exceeds the sum.
pub proof fn lemma_element_le_sum(ps: Seq<(Seq<char>, u128)>)
    ensures
        0 <= sum_values(ps),
        forall|i: int| 0 <= i < ps.len() ==> (#[trigger] ps[i]).1 <= sum_values(ps),
    decreases ps.len(),
{
    if ps.len() > 0 {
        lemma_element_le_sum(ps.skip(1));
        assert(forall|i: int| 1 <= i < ps.len() ==> ps.skip(1)[i - 1] == (#[trigger] ps[i]));
    }
}

/// A part of the whole is at most one hundred percent.
proof fn lemma_pct_at_most_whole(t: int, g: int)
    requires
        0 <= t <= g,
        0 < g,
    ensures
        0 <= t * (PCT_FACTOR as int) / g <= PCT_FACTOR,
{
    lemma_div_pos_is_pos(t * (PCT_FACTOR as int), g);
    assert(t * (PCT_FACTOR as int) <= g * (PCT_FACTOR as int)) by (nonlinear_arith)
        requires
            0 <= t <= g,
    ;
    vstd::arithmetic::div_mod::lemma_div_is_ordered(
        t * (PCT_FACTOR as int),
        g * (PCT_FACTOR as int),
        g,
    );
    lemma_div_multiples_vanish(PCT_FACTOR as int, g);
}

/// The percentages, scaled back up by the whole, differ from the parts
/// scaled by one hundred percent only by the division remainders: at most
/// `g - 1` per category.
proof fn lemma_pct_sum_decomp(ps: Seq<(Seq<char>, u128)>, g: int)
    requires
        0 < g,
        forall|i: int| 0 <= i < ps.len() ==> (#[trigger] ps[i]).1 <= g,
    ensures
        g * sum_values(alloc_pcts(ps, g)) <= sum_values(ps) * (PCT_FACTOR as int),
        sum_values(ps) * (PCT_FACTOR as int) <= g * sum_values(alloc_pcts(ps, g)) + ps.len() * (g
            - 1),
    decreases ps.len(),
{
    if ps.len() == 0 {
        assert(alloc_pcts(ps, g).len() == 0);
        assert(g * 0 == 0) by (nonlinear_arith);
    } else {
        let t = ps[0].1 as int;
        let q = pct_of(t, g);
        let rest = ps.skip(1);
        assert(forall|i: int| 0 <= i < rest.len() ==> (#[trigger] rest[i]).1 <= g) by {
            assert(forall|i: int| 0 <= i < rest.len() ==> rest[i] == (#[trigger] ps[i + 1]));
        }
        lemma_pct_sum_decomp(rest, g);
        lemma_pct_at_most_whole(t, g);
        assert(alloc_pcts(ps, g)[0] == (ps[0].0, q as u128));
        assert(alloc_pcts(ps, g).skip(1) =~= alloc_pcts(rest, g));
        assert(sum_values(alloc_pcts(ps, g)) == q + sum_values(alloc_pcts(rest, g)));
        assert(sum_values(ps) == t + sum_values(rest));
        vstd::arithmetic::div_mod::lemma_fundamental_div_mod(t * (PCT_FACTOR as int), g);
        vstd::arithmetic::div_mod::lemma_mod_bound(t * (PCT_FACTOR as int), g);
        let qq = sum_values(alloc_pcts(rest, g));
        let ss = sum_values(rest);
        assert((t + ss) * (PCT_FACTOR as int) == t * (PCT_FACTOR as int) + ss * (PCT_FACTOR as int))
            by (nonlinear_arith);
        assert(g * (q + qq) == g * q + g * qq) by (nonlinear_arith);
        assert(ps.len() * (g - 1) == (rest.len() as int) * (g - 1) + (g - 1)) by (nonlinear_arith)
            requires
                ps.len() == rest.len() + 1,
        ;
        assert(t * (PCT_FACTOR as int) >= 0) by (nonlinear_arith)
            requires
                t >= 0,
        ;
    }
}

/// Law: when the category totals sum to the grand total, the computed
/// percentages sum to one hundred percent, short of it by less than one
/// rounding step per category: the sum lies in
/// `(PCT_FACTOR - count, PCT_FACTOR]`.
pub proof fn lemma_allocation_percentages_sum(ps: Seq<(Seq<char>, u128)>, grand: u128)
    requires
        grand > 0,
        sum_values(ps) == grand as int,
    ensures
        (PCT_FACTOR as int) - ps.len() < sum_values(alloc_pcts(ps, grand as int)),
        sum_values(alloc_pcts(ps, grand as int)) <= PCT_FACTOR,
{
    let g = grand as int;
    let k = ps.len() as int;
    lemma_element_le_sum(ps);
    lemma_pct_sum_decomp(ps, g);
    let q = sum_values(alloc_pcts(ps, g));
    assert(g * q <= g * (PCT_FACTOR as int));
    assert(q <= PCT_FACTOR as int) by (nonlinear_arith)
        requires
            g > 0,
            g * q <= g * (PCT_FACTOR as int),
    ;
    assert(g * (PCT_FACTOR as int) <= g * q + k * (g - 1));
    assert(k >= 1);
    assert(g * ((PCT_FACTOR as int) - q) <= k * (g - 1)) by (nonlinear_arith)
        requires
            g * (PCT_FACTOR as int) <= g * q + k * (g - 1),
    ;
    assert(k * (g - 1) < k * g) by (nonlinear_arith)
        requires
            k >= 1,
            g > 0,
    ;
    assert((PCT_FACTOR as int) - q < k) by (nonlinear_arith)
        requires
            g > 0,
            g * ((PCT_FACTOR as int) - q) < k * g,
    ;
}

proof fn lemma_sum_values_remove(s: Seq<(Seq<char>, u128)>, j: int)
    requires
        0 <= j < s.len(),
    ensures
        sum_values(s) == s[j].1 + sum_values(s.remove(j)),
    decreases s.len(),
{
    if j == 0 {
        assert(s.remove(0) =~= s.skip(1));
    } else {
        assert(s.remove(j)[0] == s[0]);
        assert(s.remove(j).skip(1) =~= s.skip(1).remove(j - 1));
        assert(s.skip(1)[j - 1] == s[j]);
        lemma_sum_values_remove(s.skip(1), j - 1);
    }
}

/// Reordering the pairs does not change their sum.
pub proof fn lemma_sum_values_permutation(s1: Seq<(Seq<char>, u128)>, s2: Seq<(Seq<char>, u128)>)
    requires
        s1.to_multiset() == s2.to_multiset(),
    ensures
        sum_values(s1) == sum_values(s2),
    decreases s1.len(),
{
    vstd::seq_lib::to_multiset_len(s1);
    vstd::seq_lib::to_multiset_len(s2);
    if s1.len() > 0 {
        let x = s1[0];
        assert(s1.contains(x));
        vstd::seq_lib::to_multiset_contains(s1, x);
        vstd::seq_lib::to_multiset_contains(s2, x);
        assert(s2.contains(x));
        let j = choose|j: int| 0 <= j < s2.len() && s2[j] == x;
        lemma_sum_values_remove(s1, 0);
        lemma_sum_values_remove(s2, j);
        vstd::seq_lib::to_multiset_remove(s1, 0);
        vstd::seq_lib::to_multiset_remove(s2, j);
        lemma_sum_values_permutation(s1.remove(0), s2.remove(j));
    }
}

/// Law: the allocation `compute_allocation` returns — whatever order the
/// sort put it in — sums to one hundred percent, short of it by less than
/// one rounding step per category.
pub proof fn lemma_allocation_output_sums(
    result: Seq<(Seq<char>, u128)>,
    totals: Seq<(Seq<char>, u128)>,
    grand: u128,
)
    requires
        grand > 0,
        sum_values(totals) == grand as int,
        result.to_multiset() == alloc_pcts(totals, grand as int).to_multiset(),
    ensures
        (PCT_FACTOR as int) - totals.len() < sum_values(result) <= PCT_FACTOR,
{
    lemma_sum_values_permutation(result, alloc_pcts(totals, grand as int));
    lemma_allocation_percentages_sum(totals, grand);
}

} // verus!
