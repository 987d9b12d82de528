//! Persistence invariants: the file path and the sorted-snapshot order.
//!
//! The file I/O itself (read, write to a temporary sibling, atomic rename)
//! lives in the unverified shell; this module supplies the path and the
//! single enforcement point of the ordering invariant applied before every
//! save.

use vstd::prelude::*;

use crate::model::{snaps_views, Portfolio, Snapshot, SnapshotView};
use crate::strings::{lemma_lex_le_total, lex_le, str_le};

verus! {

/// Snapshots ordered ascending by date (lexicographic equals chronological
/// for the zero-padded ISO form).
pub open spec fn sorted_by_date(snaps: Seq<SnapshotView>) -> bool {
    forall|i: int, j: int|
        0 <= i < j < snaps.len() ==> lex_le((#[trigger] snaps[i]).date, (#[trigger] snaps[j]).date)
}

/// Where the portfolio document lives under the user's configuration
/// directory.
pub fn portfolio_path(config_dir: &str) -> (r: String)
    ensures
        r@ == config_dir@ + "/nw-tracker/portfolio.json"@,
{
    let mut r = config_dir.to_owned();
    r.append("/nw-tracker/portfolio.json");
    r
}

/// Sort snapshots ascending by date: the same snapshots, reordered.
pub fn sort_snapshots(snapshots: Vec<Snapshot>) -> (r: Vec<Snapshot>)
    ensures
        sorted_by_date(snaps_views(r@)),
        snaps_views(r@).to_multiset() == snaps_views(snapshots@).to_multiset(),
        r@.len() == snapshots@.len(),
{
    broadcast use vstd::seq_lib::group_to_multiset_ensures;

    let ghost orig = snaps_views(snapshots@);
    let mut work = snapshots;
    let mut out: Vec<Snapshot> = Vec::new();
    proof {
        assert(snaps_views(out@) =~= Seq::<SnapshotView>::empty());
        assert(snaps_views(out@).to_multiset().add(snaps_views(work@).to_multiset())
            =~= orig.to_multiset());
    }
    while work.len() > 0
        invariant
            snaps_views(out@).to_multiset().add(snaps_views(work@).to_multiset())
                == orig.to_multiset(),
            out@.len() + work@.len() == orig.len(),
            sorted_by_date(snaps_views(out@)),
            forall|a: int, k: int|
                0 <= a < out@.len() && 0 <= k < work@.len() ==> lex_le(
                    (#[trigger] snaps_views(out@)[a]).date,
                    (#[trigger] snaps_views(work@)[k]).date,
                ),
        decreases work@.len(),
    {
        let mut best: usize = 0;
        let mut j: usize = 1;
        proof {
            crate::strings::lemma_lex_le_refl(work@[0]@.date);
        }
        while j < work.len()
            invariant
                best < j <= work@.len(),
                work@.len() > 0,
                forall|k: int|
                    0 <= k < j ==> lex_le(work@[best as int]@.date, (#[trigger] work@[k])@.date),
            decreases work@.len() - j,
        {
            proof {
                lemma_lex_le_total(work@[best as int]@.date, work@[j as int]@.date);
            }
            if str_le(work[j].date.as_str(), work[best].date.as_str()) {
                if !str_le(work[best].date.as_str(), work[j].date.as_str()) {
                    let ghost old_best = best as int;
                    best = j;
                    proof {
                        crate::strings::lemma_lex_le_refl(work@[j as int]@.date);
                        assert forall|k: int| 0 <= k < j + 1 implies lex_le(
                            work@[best as int]@.date,
                            (#[trigger] work@[k])@.date,
                        ) by {
                            if k < j {
                                crate::strings::lemma_lex_le_trans(
                                    work@[j as int]@.date,
                                    work@[old_best]@.date,
                                    work@[k]@.date,
                                );
                            }
                        }
                    }
                } else {
                    // equal dates: keep the earlier index
                }
            }
            j += 1;
        }
        let ghost old_work_views = snaps_views(work@);
        let ghost old_out_views = snaps_views(out@);
        let ghost xv = old_work_views[best as int];
        let x = work.remove(best);
        out.push(x);
        proof {
            broadcast use vstd::multiset::group_multiset_axioms;

            assert(snaps_views(work@) =~= old_work_views.remove(best as int));
            assert(snaps_views(out@) =~= old_out_views.push(xv));
            vstd::seq_lib::to_multiset_remove(old_work_views, best as int);
            vstd::seq_lib::to_multiset_build(old_out_views, xv);
            assert(old_work_views.to_multiset().count(xv) > 0) by {
                vstd::seq_lib::to_multiset_contains(old_work_views, xv);
                assert(old_work_views.contains(xv));
            }
            assert(snaps_views(out@).to_multiset().add(snaps_views(work@).to_multiset())
                =~= old_out_views.to_multiset().add(old_work_views.to_multiset()));
            assert forall|a: int, k: int|
                0 <= a < out@.len() && 0 <= k < work@.len() implies lex_le(
                (#[trigger] snaps_views(out@)[a]).date,
                (#[trigger] snaps_views(work@)[k]).date,
            ) by {
                assert(snaps_views(work@)[k] == old_work_views[if k < best {
                    k
                } else {
                    k + 1
                }]);
                if a < out@.len() - 1 {
                    assert(snaps_views(out@)[a] == old_out_views[a]);
                }
            }
        }
    }
    out
}

/// Law and single enforcement point: what the save path writes has its
/// snapshots sorted ascending by date, assets and snapshot contents
/// untouched — so a later load sees them ordered.
pub fn prepare_for_save(portfolio: &mut Portfolio)
    ensures
        final(portfolio)@.assets == old(portfolio)@.assets,
        sorted_by_date(final(portfolio)@.snapshots),
        final(portfolio)@.snapshots.to_multiset() == old(portfolio)@.snapshots.to_multiset(),
{
    let mut tmp: Vec<Snapshot> = Vec::new();
    core::mem::swap(&mut portfolio.snapshots, &mut tmp);
    portfolio.snapshots = sort_snapshots(tmp);
}

} // verus!
