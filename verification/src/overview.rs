//! Flat-scan analyses over the accumulated records: total quota usage,
//! records with an unusual parent count, and meaningfully sized records whose
//! parent lies outside the crawled set.

use vstd::prelude::*;
use crate::record::{FileRecord, FileRecordView};

verus! {

/// Records smaller than this many quota bytes are suppressed from the
/// foreign-parent report, to keep tiny and zero-size entries out of it.
pub const FOREIGN_PARENT_MIN_BYTES: u64 = 1024;

/// The quota-weighted byte count of one record; absent counts as zero, for
/// summation only.
pub open spec fn quota_of(f: FileRecordView) -> nat {
    match f.quota_bytes_used {
        Some(b) => b as nat,
        None => 0,
    }
}

/// The sum of the quota-weighted sizes of all records.
pub open spec fn total_quota(files: Seq<FileRecordView>) -> nat
    decreases files.len(),
{
    if files.len() == 0 {
        0
    } else {
        total_quota(files.drop_last()) + quota_of(files.last())
    }
}

/// Sums the quota-weighted sizes of all records; a record without one
/// contributes zero. The accumulator is wide enough that the sum of any
/// addressable number of 64-bit sizes fits.
pub fn total_usage(files: &Vec<FileRecord>) -> (sum: u128)
    ensures
        sum == total_quota(files.deep_view()),
{
    let ghost all = files.deep_view();
    let mut sum: u128 = 0;
    let mut i: usize = 0;
    while i < files.len()
        invariant
            i <= files.len(),
            all == files.deep_view(),
            sum == total_quota(all.take(i as int)),
            sum <= i * (u64::MAX as nat),
        decreases files.len() - i,
    {
        let q: u64 = match files[i].quota_bytes_used {
            Some(b) => b,
            None => 0,
        };
        proof {
            assert((i as nat) * (u64::MAX as nat) + (u64::MAX as nat) == (i + 1) * (
            u64::MAX as nat)) by (nonlinear_arith);
            assert((i + 1) * (u64::MAX as nat) <= (usize::MAX as nat) * (u64::MAX as nat)) by (
            nonlinear_arith)
                requires
                    i + 1 <= usize::MAX as nat,
            ;
            assert((usize::MAX as nat) * (u64::MAX as nat) < u128::MAX as nat) by (
            nonlinear_arith);
            assert(all.take(i + 1).drop_last() =~= all.take(i as int));
            assert(all.take(i + 1).last() == all[i as int]);
            assert(quota_of(all[i as int]) == q as nat);
        }
        sum = sum + q as u128;
        i += 1;
    }
    proof {
        assert(all.take(files.len() as int) =~= all);
    }
    sum
}

/// True of a record that is not nested under exactly one parent: zero parents
/// or several.
pub open spec fn unusual_parents(f: FileRecordView) -> bool {
    f.parents.len() != 1
}

/// True when some record in `files` carries this id.
pub open spec fn id_known(files: Seq<FileRecordView>, id: Seq<char>) -> bool {
    exists|j: int| 0 <= j < files.len() && (#[trigger] files[j]).id == id
}

/// True of a record with at least one parent id that no crawled record
/// carries: it lives under a folder the crawl does not own.
pub open spec fn has_foreign_parent(files: Seq<FileRecordView>, f: FileRecordView) -> bool {
    exists|k: int| 0 <= k < f.parents.len() && !id_known(files, #[trigger] f.parents[k])
}

/// A record reported as "parents not owned by me": some parent is unknown and
/// the record's quota-weighted size exceeds the noise threshold.
pub open spec fn foreign_parent_candidate(
    files: Seq<FileRecordView>,
    f: FileRecordView,
    threshold: u64,
) -> bool {
    has_foreign_parent(files, f) && quota_of(f) > threshold as nat
}

/// Whether some record of `files` has id equal to `id`.
pub fn contains_id(files: &Vec<FileRecord>, id: &String) -> (r: bool)
    ensures
        r == id_known(files.deep_view(), id@),
{
    let ghost all = files.deep_view();
    let mut j: usize = 0;
    while j < files.len()
        invariant
            j <= files.len(),
            all == files.deep_view(),
            forall|t: int| 0 <= t < j ==> (#[trigger] all[t]).id != id@,
        decreases files.len() - j,
    {
        if files[j].id == *id {
            proof {
                assert(all[j as int].id == id@);
            }
            return true;
        }
        j += 1;
    }
    false
}

/// The positions, in crawl order, of the records with an unusual parent
/// count. The result lists exactly those positions, each once, in increasing
/// order.
pub fn unusual_parent_positions(files: &Vec<FileRecord>) -> (out: Vec<usize>)
    ensures
        forall|k: int|
            0 <= k < out.len() ==> #[trigger] out[k] < files.len() && unusual_parents(
                files.deep_view()[out[k] as int],
            ),
        forall|k1: int, k2: int| 0 <= k1 < k2 < out.len() ==> out[k1] < out[k2],
        forall|j: int|
            0 <= j < files.len() && unusual_parents(#[trigger] files.deep_view()[j])
                ==> out@.contains(j as usize),
{
    let ghost all = files.deep_view();
    let mut out: Vec<usize> = Vec::new();
    let mut j: usize = 0;
    while j < files.len()
        invariant
            j <= files.len(),
            all == files.deep_view(),
            forall|k: int|
                0 <= k < out.len() ==> #[trigger] out[k] < j && unusual_parents(
                    all[out[k] as int],
                ),
            forall|k1: int, k2: int| 0 <= k1 < k2 < out.len() ==> out[k1] < out[k2],
            forall|t: int| 0 <= t < j && unusual_parents(#[trigger] all[t]) ==> out@.contains(
                t as usize,
            ),
        decreases files.len() - j,
    {
        let ghost prev = out@;
        if files[j].parents.len() != 1 {
            out.push(j);
            proof {
                assert(all[j as int].parents.len() != 1);
                assert(out@.last() == j as usize);
                assert forall|k: int|
                    0 <= k < out.len() implies #[trigger] out@[k] < j + 1 && unusual_parents(
                    all[out@[k] as int],
                ) by {
                    if k < prev.len() {
                        assert(out@[k] == prev[k]);
                    } else {
                        assert(out@[k] == j as usize);
                    }
                }
                assert forall|k1: int, k2: int|
                    0 <= k1 < k2 < out.len() implies out@[k1] < out@[k2] by {
                    assert(out@[k1] == prev[k1]);
                    if k2 < prev.len() {
                        assert(out@[k2] == prev[k2]);
                    } else {
                        assert(out@[k2] == j as usize);
                        assert(prev[k1] < j as usize);
                    }
                }
                assert forall|t: int|
                    0 <= t < j + 1 && unusual_parents(#[trigger] all[t]) implies out@.contains(
                    t as usize,
                ) by {
                    if t < j {
                        let w = choose|w: int| 0 <= w < prev.len() && prev[w] == t as usize;
                        assert(out@[w] == t as usize);
                    } else {
                        assert(out@[out@.len() - 1] == t as usize);
                    }
                }
            }
        }
        j += 1;
    }
    out
}

/// The positions, in crawl order, of the records with a parent the crawl
/// does not know and a quota-weighted size above `threshold` bytes. The
/// result lists exactly those positions, each once, in increasing order.
pub fn foreign_parent_positions(files: &Vec<FileRecord>, threshold: u64) -> (out: Vec<usize>)
    ensures
        forall|k: int|
            0 <= k < out.len() ==> #[trigger] out[k] < files.len() && foreign_parent_candidate(
                files.deep_view(),
                files.deep_view()[out[k] as int],
                threshold,
            ),
        forall|k1: int, k2: int| 0 <= k1 < k2 < out.len() ==> out[k1] < out[k2],
        forall|j: int|
            0 <= j < files.len() && foreign_parent_candidate(
                files.deep_view(),
                #[trigger] files.deep_view()[j],
                threshold,
            ) ==> out@.contains(j as usize),
{
    let ghost all = files.deep_view();
    let mut out: Vec<usize> = Vec::new();
    let mut j: usize = 0;
    while j < files.len()
        invariant
            j <= files.len(),
            all == files.deep_view(),
            forall|k: int|
                0 <= k < out.len() ==> #[trigger] out[k] < j && foreign_parent_candidate(
                    all,
                    all[out[k] as int],
                    threshold,
                ),
            forall|k1: int, k2: int| 0 <= k1 < k2 < out.len() ==> out[k1] < out[k2],
            forall|t: int|
                0 <= t < j && foreign_parent_candidate(all, #[trigger] all[t], threshold)
                    ==> out@.contains(t as usize),
        decreases files.len() - j,
    {
        let ghost prev = out@;
        if is_foreign_candidate(files, j, threshold) {
            out.push(j);
            proof {
                assert(out@.last() == j as usize);
                assert forall|k: int|
                    0 <= k < out.len() implies #[trigger] out@[k] < j + 1
                    && foreign_parent_candidate(all, all[out@[k] as int], threshold) by {
                    if k < prev.len() {
                        assert(out@[k] == prev[k]);
                    } else {
                        assert(out@[k] == j as usize);
                    }
                }
                assert forall|k1: int, k2: int|
                    0 <= k1 < k2 < out.len() implies out@[k1] < out@[k2] by {
                    assert(out@[k1] == prev[k1]);
                    if k2 < prev.len() {
                        assert(out@[k2] == prev[k2]);
                    } else {
                        assert(out@[k2] == j as usize);
                        assert(prev[k1] < j as usize);
                    }
                }
                assert forall|t: int|
                    0 <= t < j + 1 && foreign_parent_candidate(
                        all,
                        #[trigger] all[t],
                        threshold,
                    ) implies out@.contains(t as usize) by {
                    if t < j {
                        let w = choose|w: int| 0 <= w < prev.len() && prev[w] == t as usize;
                        assert(out@[w] == t as usize);
                    } else {
                        assert(out@[out@.len() - 1] == t as usize);
                    }
                }
            }
        }
        j += 1;
    }
    out
}

/// Whether the record at position `j` belongs in the foreign-parent report.
fn is_foreign_candidate(files: &Vec<FileRecord>, j: usize, threshold: u64) -> (r: bool)
    requires
        j < files.len(),
    ensures
        r == foreign_parent_candidate(
            files.deep_view(),
            files.deep_view()[j as int],
            threshold,
        ),
{
    let ghost all = files.deep_view();
    let f = &files[j];
    let q: u64 = match f.quota_bytes_used {
        Some(b) => b,
        None => 0,
    };
    if q <= threshold {
        return false;
    }
    let mut k: usize = 0;
    while k < f.parents.len()
        invariant
            k <= f.parents.len(),
            all == files.deep_view(),
            j < files.len(),
            f == files[j as int],
            forall|t: int| 0 <= t < k ==> id_known(all, #[trigger] all[j as int].parents[t]),
            q as nat == quota_of(all[j as int]),
            q > threshold,
        decreases f.parents.len() - k,
    {
        if !contains_id(files, &f.parents[k]) {
            proof {
                assert(all[j as int].parents[k as int] == f.parents[k as int]@);
            }
            return true;
        }
        proof {
            assert(all[j as int].parents[k as int] == f.parents[k as int]@);
        }
        k += 1;
    }
    false
}

} // verus!
