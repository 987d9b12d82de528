//! The decisions behind the asset and snapshot commands.
//!
//! Each command's validation and mutation lives here, verified; the shell
//! around the engine only prompts, confirms and saves.

use vstd::prelude::*;

use crate::calendar::{is_valid_date_str, validate_date};
use crate::compute::{find_asset, find_asset_idx};
use crate::error::NwError;
use crate::model::{
    assets_views, rates_view, snaps_views, Asset, AssetView, Portfolio, Snapshot, SnapshotEntry,
    SnapshotView,
};
use crate::strings::{lemma_lex_le_total, lemma_lex_le_trans, lex_le, str_eq, str_le};
use crate::{MAX_ENTRIES, VALUE_MAX};

verus! {

/// What `str::to_lowercase` returns: a function of the characters alone.
pub uninterp spec fn lower_of(s: Seq<char>) -> Seq<char>;

/// What `str::to_uppercase` returns: a function of the characters alone.
pub uninterp spec fn upper_of(s: Seq<char>) -> Seq<char>;

/// Relies on `str::to_lowercase`: Unicode lower-casing, depending on the
/// characters alone.
#[verifier::external_body]
fn to_lower(s: &str) -> (r: String)
    ensures
        r@ == lower_of(s@),
{
    s.to_lowercase()
}

/// Relies on `str::to_uppercase`: Unicode upper-casing, depending on the
/// characters alone.
#[verifier::external_body]
fn to_upper(s: &str) -> (r: String)
    ensures
        r@ == upper_of(s@),
{
    s.to_uppercase()
}

/// The asset an add command stores: category lower-cased, currency
/// upper-cased.
pub open spec fn normalized_asset(
    id: Seq<char>,
    name: Seq<char>,
    category: Seq<char>,
    currency: Seq<char>,
) -> AssetView {
    AssetView { id, name, category: lower_of(category), currency: upper_of(currency) }
}

/// Add a new asset. The id must be unused; the category is stored
/// lower-cased and the currency upper-cased.
pub fn add_asset(portfolio: &mut Portfolio, id: String, name: String, category: String, currency: String) -> (r:
    Result<(), NwError>)
    ensures
        find_asset(old(portfolio)@.assets, id@) is Some ==> (r matches Err(
            NwError::DuplicateAssetId(d),
        ) && d@ == id@ && *final(portfolio) == *old(portfolio)),
        find_asset(old(portfolio)@.assets, id@) is None ==> r == Ok::<(), NwError>(())
            && final(portfolio)@.snapshots == old(portfolio)@.snapshots && final(portfolio)@.assets == old(portfolio)@.assets.push(
            normalized_asset(id@, name@, category@, currency@),
        ),
{
    match find_asset_idx(&portfolio.assets, id.as_str()) {
        Some(_) => Err(NwError::DuplicateAssetId(id)),
        None => {
            let ghost old_assets = assets_views(portfolio.assets@);
            let category = to_lower(category.as_str());
            let currency = to_upper(currency.as_str());
            portfolio.assets.push(Asset { id, name, category, currency });
            proof {
                assert(assets_views(portfolio.assets@) =~= old_assets.push(
                    portfolio.assets@[portfolio.assets@.len() - 1]@,
                ));
            }
            Ok(())
        },
    }
}

/// The asset after an edit: each given field replaced, the category
/// lower-cased and the currency upper-cased, the id kept.
pub open spec fn edited_asset(
    a: AssetView,
    name: Option<String>,
    category: Option<String>,
    currency: Option<String>,
) -> AssetView {
    AssetView {
        id: a.id,
        name: match name {
            Some(n) => n@,
            None => a.name,
        },
        category: match category {
            Some(c) => lower_of(c@),
            None => a.category,
        },
        currency: match currency {
            Some(c) => upper_of(c@),
            None => a.currency,
        },
    }
}

/// Edit an existing asset in place. Only the given fields change; the
/// returned flag says whether anything was given at all.
pub fn edit_asset(
    portfolio: &mut Portfolio,
    id: &str,
    name: Option<String>,
    category: Option<String>,
    currency: Option<String>,
) -> (r: Result<bool, NwError>)
    ensures
        find_asset(old(portfolio)@.assets, id@) is None ==> (r matches Err(
            NwError::AssetNotFound(d),
        ) && d@ == id@ && *final(portfolio) == *old(portfolio)),
        find_asset(old(portfolio)@.assets, id@) is Some ==> (r matches Ok(changed) && changed == (
        name is Some || category is Some || currency is Some) && final(portfolio)@.snapshots
            == old(portfolio)@.snapshots && exists|j: int|
            0 <= j < old(portfolio)@.assets.len() && (#[trigger] old(portfolio)@.assets[j]).id
                == id@ && (forall|k: int| 0 <= k < j ==> old(portfolio)@.assets[k].id != id@)
                && final(portfolio)@.assets == old(portfolio)@.assets.update(
                j,
                edited_asset(old(portfolio)@.assets[j], name, category, currency),
            )),
{
    let ghost old_assets = assets_views(portfolio.assets@);
    match find_asset_idx(&portfolio.assets, id) {
        None => Err(NwError::AssetNotFound(id.to_owned())),
        Some(j) => {
            let mut changed = false;
            let mut a = portfolio.assets.remove(j);
            match name {
                Some(n) => {
                    a.name = n;
                    changed = true;
                },
                None => {},
            }
            match category {
                Some(c) => {
                    a.category = to_lower(c.as_str());
                    changed = true;
                },
                None => {},
            }
            match currency {
                Some(c) => {
                    a.currency = to_upper(c.as_str());
                    changed = true;
                },
                None => {},
            }
            portfolio.assets.insert(j, a);
            proof {
                assert(assets_views(portfolio.assets@) =~= old_assets.update(
                    j as int,
                    portfolio.assets@[j as int]@,
                ));
                assert(old_assets[j as int].id == id@);
                assert(forall|k: int| 0 <= k < j ==> (#[trigger] old_assets[k]).id != id@);
            }
            Ok(changed)
        },
    }
}

/// The assets left once every asset with this id is removed.
pub open spec fn without_asset(assets: Seq<AssetView>, id: Seq<char>) -> Seq<AssetView>
    decreases assets.len(),
{
    if assets.len() == 0 {
        Seq::empty()
    } else {
        let rest = without_asset(assets.drop_last(), id);
        if assets.last().id == id {
            rest
        } else {
            rest.push(assets.last())
        }
    }
}

/// Remove an asset by id. Snapshots are left untouched: entries that still
/// reference the removed asset become dangling and are skipped by every
/// later valuation.
pub fn remove_asset(portfolio: &mut Portfolio, id: &str) -> (r: Result<(), NwError>)
    ensures
        find_asset(old(portfolio)@.assets, id@) is None ==> (r matches Err(
            NwError::AssetNotFound(d),
        ) && d@ == id@ && *final(portfolio) == *old(portfolio)),
        find_asset(old(portfolio)@.assets, id@) is Some ==> r == Ok::<(), NwError>(())
            && final(portfolio)@.snapshots == old(portfolio)@.snapshots && final(portfolio)@.assets == without_asset(old(portfolio)@.assets, id@),
{
    match find_asset_idx(&portfolio.assets, id) {
        None => Err(NwError::AssetNotFound(id.to_owned())),
        Some(_) => {
            let mut tmp: Vec<Asset> = Vec::new();
            core::mem::swap(&mut portfolio.assets, &mut tmp);
            let ghost orig = assets_views(tmp@);
            let ghost total = orig.len() as int;
            let mut kept: Vec<Asset> = Vec::new();
            let ghost mut done: int = 0;
            proof {
                assert(orig.take(0) =~= Seq::<AssetView>::empty());
                assert(orig.skip(0) =~= orig);
                assert(assets_views(kept@) =~= Seq::<AssetView>::empty());
            }
            while tmp.len() > 0
                invariant
                    0 <= done <= total,
                    total == orig.len(),
                    assets_views(tmp@) == orig.skip(done),
                    tmp@.len() == total - done,
                    assets_views(kept@) == without_asset(orig.take(done), id@),
                decreases tmp@.len(),
            {
                proof {
                    assert(orig.take(done + 1).drop_last() =~= orig.take(done));
                    assert(orig.take(done + 1).last() == orig[done]);
                    assert(assets_views(tmp@)[0] == tmp@[0]@);
                    assert(orig.skip(done)[0] == orig[done]);
                }
                let ghost old_tmp_views = assets_views(tmp@);
                let a = tmp.remove(0);
                proof {
                    assert(assets_views(tmp@) =~= old_tmp_views.skip(1));
                    assert(old_tmp_views.skip(1) =~= orig.skip(done + 1));
                }
                let keep = !str_eq(a.id.as_str(), id);
                if keep {
                    let ghost old_kept = assets_views(kept@);
                    kept.push(a);
                    proof {
                        assert(assets_views(kept@) =~= old_kept.push(orig[done]));
                    }
                }
                proof {
                    done = done + 1;
                }
            }
            portfolio.assets = kept;
            proof {
                assert(done == total);
                assert(orig.take(total) =~= orig);
            }
            Ok(())
        },
    }
}

/// How many snapshots carry an entry for this asset (shown before a
/// removal is confirmed).
pub open spec fn snap_mentions(s: SnapshotView, id: Seq<char>) -> bool
    decreases s.entries.len(),
{
    exists|i: int| 0 <= i < s.entries.len() && (#[trigger] s.entries[i]).asset_id == id
}

/// Count of snapshots that mention the asset.
pub open spec fn count_mentions(snaps: Seq<SnapshotView>, id: Seq<char>) -> int
    decreases snaps.len(),
{
    if snaps.len() == 0 {
        0
    } else {
        (if snap_mentions(snaps.last(), id) {
            1int
        } else {
            0int
        }) + count_mentions(snaps.drop_last(), id)
    }
}

/// How many snapshots have an entry for this asset.
pub fn count_snapshots_with_asset(portfolio: &Portfolio, id: &str) -> (r: usize)
    ensures
        r == count_mentions(portfolio@.snapshots, id@),
{
    let ghost sv = snaps_views(portfolio.snapshots@);
    let mut count: usize = 0;
    let mut i: usize = 0;
    let n = portfolio.snapshots.len();
    proof {
        assert(sv.take(0) =~= Seq::<SnapshotView>::empty());
    }
    while i < n
        invariant
            i <= n,
            n == portfolio.snapshots@.len(),
            sv == snaps_views(portfolio.snapshots@),
            sv.len() == n,
            count <= i,
            count == count_mentions(sv.take(i as int), id@),
        decreases n - i,
    {
        proof {
            assert(sv.take(i + 1).drop_last() =~= sv.take(i as int));
            assert(sv.take(i + 1).last() == sv[i as int]);
            assert(sv[i as int] == portfolio.snapshots@[i as int]@);
        }
        let snapshot = &portfolio.snapshots[i];
        let mut mentioned = false;
        let mut k: usize = 0;
        let m = snapshot.entries.len();
        while k < m && !mentioned
            invariant
                k <= m,
                m == snapshot.entries@.len(),
                !mentioned ==> forall|e: int|
                    0 <= e < k ==> (#[trigger] snapshot.entries@[e])@.asset_id != id@,
                mentioned ==> exists|e: int|
                    0 <= e < m && (#[trigger] snapshot.entries@[e])@.asset_id == id@,
            decreases m - k + (if mentioned { 0int } else { 1int }),
        {
            if str_eq(snapshot.entries[k].asset_id.as_str(), id) {
                mentioned = true;
            } else {
                k += 1;
            }
        }
        proof {
            assert(sv[i as int] == snapshot@);
            if mentioned {
                let e = choose|e: int|
                    0 <= e < snapshot.entries@.len() && (#[trigger] snapshot.entries@[e])@.asset_id
                        == id@;
                assert(snapshot@.entries[e] == snapshot.entries@[e]@);
                assert(snap_mentions(sv[i as int], id@));
            } else {
                assert forall|e: int| 0 <= e < snapshot@.entries.len() implies (
                #[trigger] snapshot@.entries[e]).asset_id != id@ by {
                    assert(snapshot@.entries[e] == snapshot.entries@[e]@);
                }
                assert(!snap_mentions(sv[i as int], id@));
            }
        }
        if mentioned {
            count += 1;
        }
        i += 1;
    }
    proof {
        assert(sv.take(n as int) =~= sv);
    }
    count
}

/// Whether some snapshot carries this date.
pub open spec fn has_snapshot_date(snaps: Seq<SnapshotView>, date: Seq<char>) -> bool
    decreases snaps.len(),
{
    if snaps.len() == 0 {
        false
    } else {
        snaps[0].date == date || has_snapshot_date(snaps.skip(1), date)
    }
}

/// Position of the first snapshot with the given date, if any.
pub(crate) fn find_snapshot_idx(snapshots: &Vec<Snapshot>, date: &str) -> (r: Option<usize>)
    ensures
        match r {
            Some(j) => j < snapshots@.len() && snapshots@[j as int]@.date == date@ && (forall|
                k: int,
            |
                0 <= k < j ==> (#[trigger] snapshots@[k])@.date != date@) && has_snapshot_date(
                snaps_views(snapshots@),
                date@,
            ),
            None => !has_snapshot_date(snaps_views(snapshots@), date@),
        },
{
    let ghost sv = snaps_views(snapshots@);
    let mut i: usize = 0;
    proof {
        assert(sv.skip(0) =~= sv);
    }
    while i < snapshots.len()
        invariant
            i <= snapshots@.len(),
            sv == snaps_views(snapshots@),
            sv.len() == snapshots@.len(),
            has_snapshot_date(sv, date@) == has_snapshot_date(sv.skip(i as int), date@),
            forall|k: int| 0 <= k < i ==> (#[trigger] snapshots@[k])@.date != date@,
        decreases snapshots@.len() - i,
    {
        proof {
            assert(sv.skip(i as int)[0] == sv[i as int]);
            assert(sv[i as int] == snapshots@[i as int]@);
        }
        if str_eq(snapshots[i].date.as_str(), date) {
            return Some(i);
        }
        proof {
            assert(sv.skip(i as int).skip(1) =~= sv.skip(i + 1));
        }
        i += 1;
    }
    proof {
        assert(sv.skip(snapshots@.len() as int).len() == 0);
    }
    None
}

/// The well-formedness conditions a new rate table and entry list must
/// meet: positive unique non-USD rates, bounded entries.
pub open spec fn input_wf(rates: Seq<(String, u64)>, entries: Seq<SnapshotEntry>) -> bool {
    &&& (forall|i: int, j: int|
        0 <= i < j < rates.len() ==> (#[trigger] rates[i]).0@ != (#[trigger] rates[j]).0@)
    &&& (forall|i: int| 0 <= i < rates.len() ==> (#[trigger] rates[i]).0@ != "USD"@)
    &&& (forall|i: int| 0 <= i < rates.len() ==> (#[trigger] rates[i]).1 >= 1)
    &&& entries.len() <= MAX_ENTRIES
    &&& (forall|i: int| 0 <= i < entries.len() ==> (#[trigger] entries[i]).value <= VALUE_MAX)
}

/// Add a snapshot for a new date. The date must be a valid zero-padded
/// ISO-8601 date not yet present.
pub fn add_snapshot(
    portfolio: &mut Portfolio,
    date: String,
    rates: Vec<(String, u64)>,
    entries: Vec<SnapshotEntry>,
) -> (r: Result<(), NwError>)
    requires
        input_wf(rates@, entries@),
    ensures
        !is_valid_date_str(date@) ==> (r matches Err(NwError::InvalidDate(d)) && d@ == date@
            && *final(portfolio) == *old(portfolio)),
        is_valid_date_str(date@) && has_snapshot_date(old(portfolio)@.snapshots, date@) ==> (
        r matches Err(NwError::SnapshotAlreadyExists(d)) && d@ == date@ && *final(portfolio) == *old(portfolio)),
        is_valid_date_str(date@) && !has_snapshot_date(old(portfolio)@.snapshots, date@) ==> r
            == Ok::<(), NwError>(()) && final(portfolio)@.assets == old(portfolio)@.assets
            && final(portfolio)@.snapshots == old(portfolio)@.snapshots.push(
            SnapshotView {
                date: date@,
                rates: rates_view(rates@),
                entries: entries@.map(|i: int, e: SnapshotEntry| e@),
            },
        ) && final(portfolio)@.snapshots.last().wf(),
{
    match validate_date(date.as_str()) {
        Err(e) => Err(e),
        Ok(()) => {
            match find_snapshot_idx(&portfolio.snapshots, date.as_str()) {
                Some(_) => Err(NwError::SnapshotAlreadyExists(date)),
                None => {
                    let ghost old_snaps = snaps_views(portfolio.snapshots@);
                    portfolio.snapshots.push(Snapshot { date, rates, entries });
                    proof {
                        assert(snaps_views(portfolio.snapshots@) =~= old_snaps.push(
                            portfolio.snapshots@[portfolio.snapshots@.len() - 1]@,
                        ));
                    }
                    Ok(())
                },
            }
        },
    }
}

/// Replace the rates and entries of the snapshot at an existing date.
pub fn edit_snapshot(
    portfolio: &mut Portfolio,
    date: &str,
    rates: Vec<(String, u64)>,
    entries: Vec<SnapshotEntry>,
) -> (r: Result<(), NwError>)
    requires
        input_wf(rates@, entries@),
    ensures
        !is_valid_date_str(date@) ==> (r matches Err(NwError::InvalidDate(d)) && d@ == date@
            && *final(portfolio) == *old(portfolio)),
        is_valid_date_str(date@) && !has_snapshot_date(old(portfolio)@.snapshots, date@) ==> (
        r matches Err(NwError::SnapshotNotFound(d)) && d@ == date@ && *final(portfolio) == *old(portfolio)),
        is_valid_date_str(date@) && has_snapshot_date(old(portfolio)@.snapshots, date@) ==> (r
            == Ok::<(), NwError>(()) && final(portfolio)@.assets == old(portfolio)@.assets
            && exists|j: int|
            0 <= j < old(portfolio)@.snapshots.len() && (#[trigger] old(
                portfolio,
            )@.snapshots[j]).date == date@ && final(portfolio)@.snapshots == old(
                portfolio,
            )@.snapshots.update(
                j,
                SnapshotView {
                    date: old(portfolio)@.snapshots[j].date,
                    rates: rates_view(rates@),
                    entries: entries@.map(|i: int, e: SnapshotEntry| e@),
                },
            )),
{
    match validate_date(date) {
        Err(e) => Err(e),
        Ok(()) => {
            match find_snapshot_idx(&portfolio.snapshots, date) {
                None => Err(NwError::SnapshotNotFound(date.to_owned())),
                Some(j) => {
                    let ghost old_snaps = snaps_views(portfolio.snapshots@);
                    let ghost new_rates = rates_view(rates@);
                    let ghost new_entries = entries@.map(|i: int, e: SnapshotEntry| e@);
                    let mut s = portfolio.snapshots.remove(j);
                    s.rates = rates;
                    s.entries = entries;
                    portfolio.snapshots.insert(j, s);
                    proof {
                        assert(snaps_views(portfolio.snapshots@) =~= old_snaps.update(
                            j as int,
                            portfolio.snapshots@[j as int]@,
                        ));
                        assert(old_snaps[j as int].date == date@);
                        assert(portfolio.snapshots@[j as int]@ == SnapshotView {
                            date: old_snaps[j as int].date,
                            rates: new_rates,
                            entries: new_entries,
                        });
                        assert(forall|k: int|
                            0 <= k < j ==> (#[trigger] old_snaps[k]).date != date@);
                    }
                    Ok(())
                },
            }
        },
    }
}

/// Pick the snapshot a `show` command reports on: the one at the given
/// date, or the portfolio's last snapshot when no date is given.
pub fn select_snapshot<'a>(portfolio: &'a Portfolio, date: Option<&str>) -> (r: Result<
    &'a Snapshot,
    NwError,
>)
    requires
        portfolio@.snapshots.len() > 0,
    ensures
        match date {
            None => r matches Ok(s) && s@ == portfolio@.snapshots.last(),
            Some(d) => {
                if !is_valid_date_str(d@) {
                    r matches Err(NwError::InvalidDate(e)) && e@ == d@
                } else if !has_snapshot_date(portfolio@.snapshots, d@) {
                    r matches Err(NwError::SnapshotNotFound(e)) && e@ == d@
                } else {
                    r matches Ok(s) && s@.date == d@ && exists|j: int|
                        0 <= j < portfolio@.snapshots.len() && (#[trigger] portfolio@.snapshots[j])
                            == s@
                }
            },
        },
{
    match date {
        None => {
            let n = portfolio.snapshots.len();
            Ok(&portfolio.snapshots[n - 1])
        },
        Some(d) => {
            match validate_date(d) {
                Err(e) => Err(e),
                Ok(()) => {
                    match find_snapshot_idx(&portfolio.snapshots, d) {
                        None => Err(NwError::SnapshotNotFound(d.to_owned())),
                        Some(j) => {
                            proof {
                                assert(portfolio@.snapshots[j as int] == portfolio.snapshots@[j as int]@);
                            }
                            Ok(&portfolio.snapshots[j])
                        },
                    }
                },
            }
        },
    }
}

/// Whether the list holds this string.
pub open spec fn contains_str(list: Seq<String>, s: Seq<char>) -> bool
    decreases list.len(),
{
    if list.len() == 0 {
        false
    } else {
        list[0]@ == s || contains_str(list.skip(1), s)
    }
}

/// Whether some asset is denominated in this currency.
pub open spec fn has_currency(assets: Seq<AssetView>, c: Seq<char>) -> bool
    decreases assets.len(),
{
    if assets.len() == 0 {
        false
    } else {
        assets[0].currency == c || has_currency(assets.skip(1), c)
    }
}

proof fn lemma_contains_str_insert(list: Seq<String>, p: int, x: String, s: Seq<char>)
    requires
        0 <= p <= list.len(),
    ensures
        contains_str(list.insert(p, x), s) == (contains_str(list, s) || x@ == s),
    decreases list.len(),
{
    if p == 0 {
        assert(list.insert(0, x)[0] == x);
        assert(list.insert(0, x).skip(1) =~= list);
    } else {
        assert(list.insert(p, x)[0] == list[0]);
        assert(list.insert(p, x).skip(1) =~= list.skip(1).insert(p - 1, x));
        lemma_contains_str_insert(list.skip(1), p - 1, x, s);
    }
}

proof fn lemma_contains_str_at(list: Seq<String>, j: int)
    requires
        0 <= j < list.len(),
    ensures
        contains_str(list, list[j]@),
    decreases list.len(),
{
    if j > 0 {
        lemma_contains_str_at(list.skip(1), j - 1);
        assert(list.skip(1)[j - 1] == list[j]);
    }
}

proof fn lemma_not_contains_str(list: Seq<String>, s: Seq<char>)
    requires
        forall|k: int| 0 <= k < list.len() ==> (#[trigger] list[k])@ != s,
    ensures
        !contains_str(list, s),
    decreases list.len(),
{
    if list.len() > 0 {
        assert(forall|k: int| 0 <= k < list.skip(1).len() ==> (#[trigger] list.skip(1)[k])@ != s);
        lemma_not_contains_str(list.skip(1), s);
    }
}

proof fn lemma_has_currency_push(assets: Seq<AssetView>, x: AssetView, c: Seq<char>)
    ensures
        has_currency(assets.push(x), c) == (has_currency(assets, c) || x.currency == c),
    decreases assets.len(),
{
    if assets.len() == 0 {
        assert(assets.push(x)[0] == x);
        assert(assets.push(x).skip(1) =~= Seq::<AssetView>::empty());
        assert(has_currency(assets.push(x), c) == (x.currency == c || has_currency(
            assets.push(x).skip(1),
            c,
        )));
    } else {
        assert(assets.push(x)[0] == assets[0]);
        assert(assets.push(x).skip(1) =~= assets.skip(1).push(x));
        lemma_has_currency_push(assets.skip(1), x, c);
        assert(has_currency(assets.push(x), c) == (assets[0].currency == c || has_currency(
            assets.skip(1).push(x),
            c,
        )));
        assert(has_currency(assets, c) == (assets[0].currency == c || has_currency(
            assets.skip(1),
            c,
        )));
    }
}

proof fn lemma_has_currency_take_step(assets: Seq<AssetView>, i: int, c: Seq<char>)
    requires
        0 <= i < assets.len(),
    ensures
        has_currency(assets.take(i + 1), c) == (has_currency(assets.take(i), c)
            || assets[i].currency == c),
{
    assert(assets.take(i + 1) =~= assets.take(i).push(assets[i]));
    lemma_has_currency_push(assets.take(i), assets[i], c);
}

/// The distinct non-USD currencies of the portfolio's assets, sorted
/// ascending; the list of rates a new snapshot must quote.
pub fn collect_non_usd_currencies(portfolio: &Portfolio) -> (r: Vec<String>)
    ensures
        forall|a: int, b: int|
            0 <= a < b < r@.len() ==> lex_le((#[trigger] r@[a])@, (#[trigger] r@[b])@) && r@[a]@
                != r@[b]@,
        forall|c: Seq<char>|
            #[trigger] contains_str(r@, c) == (c != "USD"@ && has_currency(portfolio@.assets, c)),
{
    let ghost av = assets_views(portfolio.assets@);
    let mut r: Vec<String> = Vec::new();
    let mut i: usize = 0;
    let n = portfolio.assets.len();
    proof {
        assert(av.take(0) =~= Seq::<AssetView>::empty());
        assert forall|c: Seq<char>| !(#[trigger] contains_str(r@, c)) by {}
    }
    while i < n
        invariant
            i <= n,
            n == portfolio.assets@.len(),
            av == assets_views(portfolio.assets@),
            av.len() == n,
            forall|a: int, b: int|
                0 <= a < b < r@.len() ==> lex_le((#[trigger] r@[a])@, (#[trigger] r@[b])@) && r@[a]@
                    != r@[b]@,
            forall|c: Seq<char>|
                #[trigger] contains_str(r@, c) == (c != "USD"@ && has_currency(
                    av.take(i as int),
                    c,
                )),
        decreases n - i,
    {
        proof {
            assert(av[i as int] == portfolio.assets@[i as int]@);
            lemma_has_currency_take_step(av, i as int, av[i as int].currency);
        }
        let currency = &portfolio.assets[i].currency;
        if !str_eq(currency.as_str(), "USD") {
            // Find the insertion point among the sorted list; skip an exact
            // duplicate.
            let mut p: usize = 0;
            let m = r.len();
            let mut duplicate = false;
            let mut placed = false;
            while p < m && !duplicate && !placed
                invariant
                    p <= m,
                    m == r@.len(),
                    !duplicate ==> forall|k: int|
                        0 <= k < p ==> lex_le((#[trigger] r@[k])@, currency@) && r@[k]@
                            != currency@,
                    duplicate ==> p < m && r@[p as int]@ == currency@,
                    placed ==> !duplicate && p < m && lex_le(currency@, r@[p as int]@) && r@[
                        p as int
                    ]@ != currency@,
                decreases m - p + (if duplicate || placed { 0int } else { 1int }),
            {
                if str_eq(r[p].as_str(), currency.as_str()) {
                    duplicate = true;
                } else if str_le(currency.as_str(), r[p].as_str()) {
                    placed = true;
                } else {
                    proof {
                        lemma_lex_le_total(currency@, r@[p as int]@);
                    }
                    p += 1;
                }
            }
            if duplicate {
                proof {
                    lemma_contains_str_at(r@, p as int);
                    assert forall|c: Seq<char>|
                        #[trigger] contains_str(r@, c) == (c != "USD"@ && has_currency(
                            av.take(i + 1),
                            c,
                        )) by {
                        lemma_has_currency_take_step(av, i as int, c);
                    }
                }
            } else {
                let ghost old_r = r@;
                r.insert(p, currency.clone());
                proof {
                    assert(r@ =~= old_r.insert(p as int, r@[p as int]));
                    assert(r@[p as int]@ == currency@);
                    assert forall|a: int, b: int| 0 <= a < b < r@.len() implies lex_le(
                        (#[trigger] r@[a])@,
                        (#[trigger] r@[b])@,
                    ) && r@[a]@ != r@[b]@ by {
                        if b < p {
                            assert(r@[a] == old_r[a] && r@[b] == old_r[b]);
                        } else if a > p {
                            assert(r@[a] == old_r[a - 1] && r@[b] == old_r[b - 1]);
                        } else if b == p {
                            assert(r@[a] == old_r[a]);
                            assert(lex_le(old_r[a]@, currency@) && old_r[a]@ != currency@);
                        } else if a == p {
                            assert(r@[b] == old_r[b - 1]);
                            assert(placed && p < old_r.len());
                            assert(lex_le(currency@, old_r[p as int]@));
                            if b - 1 > p {
                                lemma_lex_le_trans(currency@, old_r[p as int]@, old_r[b - 1]@);
                            }
                            if currency@ == old_r[b - 1]@ {
                                assert(lex_le(old_r[p as int]@, old_r[b - 1]@) && lex_le(
                                    old_r[b - 1]@,
                                    old_r[p as int]@,
                                ));
                                crate::strings::lemma_lex_le_antisym(
                                    old_r[p as int]@,
                                    old_r[b - 1]@,
                                );
                            }
                        } else {
                            assert(r@[a] == old_r[a] && r@[b] == old_r[b - 1]);
                            assert(a < p && p <= b - 1);
                            assert(placed && p < old_r.len());
                            assert(lex_le(currency@, old_r[p as int]@));
                            if b - 1 > p {
                                lemma_lex_le_trans(currency@, old_r[p as int]@, old_r[b - 1]@);
                            }
                            assert(lex_le(currency@, old_r[b - 1]@));
                            lemma_lex_le_trans(old_r[a]@, currency@, old_r[b - 1]@);
                            if old_r[a]@ == old_r[b - 1]@ {
                                lemma_lex_le_trans(currency@, old_r[b - 1]@, currency@);
                                crate::strings::lemma_lex_le_antisym(old_r[a]@, currency@);
                            }
                        }
                    }
                    assert forall|c: Seq<char>|
                        #[trigger] contains_str(r@, c) == (c != "USD"@ && has_currency(
                            av.take(i + 1),
                            c,
                        )) by {
                        lemma_contains_str_insert(old_r, p as int, r@[p as int], c);
                        lemma_has_currency_take_step(av, i as int, c);
                    }
                }
            }
        } else {
            proof {
                assert forall|c: Seq<char>|
                    #[trigger] contains_str(r@, c) == (c != "USD"@ && has_currency(
                        av.take(i + 1),
                        c,
                    )) by {
                    lemma_has_currency_take_step(av, i as int, c);
                }
            }
        }
        i += 1;
    }
    proof {
        assert(av.take(n as int) =~= av);
    }
    r
}

} // verus!
