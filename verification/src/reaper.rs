use vstd::prelude::*;
use crate::models::{CleanupResult, TempFilesInfo};
use crate::paths::{has_temp_extension, spec_is_temp_artifact};

verus! {

/// One file found while walking a temp subtree: its path, its size in
/// bytes, and its age in seconds at the time of the walk.
pub struct TempEntry {
    pub path: String,
    pub size: u64,
    pub age_seconds: u64,
}

/// Whether a sweep with the given age threshold (in hours) is due to
/// remove this entry: it must carry the temp extension and be strictly
/// older than the threshold, except that a threshold of zero removes
/// every temp artifact regardless of age.
pub open spec fn spec_expired(e: TempEntry, max_age_hours: int) -> bool {
    spec_is_temp_artifact(e.path@) && (max_age_hours == 0 || e.age_seconds > max_age_hours * 3600)
}

/// How many of the entries a sweep is due to remove.
pub open spec fn spec_expired_count(es: Seq<TempEntry>, max_age_hours: int) -> int
    decreases es.len(),
{
    if es.len() == 0 {
        0
    } else {
        spec_expired_count(es.drop_last(), max_age_hours) + if spec_expired(
            es.last(),
            max_age_hours,
        ) {
            1int
        } else {
            0int
        }
    }
}

/// How many bytes a sweep is due to free: the sum of the sizes of the
/// entries due for removal.
pub open spec fn spec_expired_size(es: Seq<TempEntry>, max_age_hours: int) -> int
    decreases es.len(),
{
    if es.len() == 0 {
        0
    } else {
        spec_expired_size(es.drop_last(), max_age_hours) + if spec_expired(
            es.last(),
            max_age_hours,
        ) {
            es.last().size as int
        } else {
            0int
        }
    }
}

/// How many of the entries carry the temp extension.
pub open spec fn spec_tmp_count(es: Seq<TempEntry>) -> int
    decreases es.len(),
{
    if es.len() == 0 {
        0
    } else {
        spec_tmp_count(es.drop_last()) + if spec_is_temp_artifact(es.last().path@) {
            1int
        } else {
            0int
        }
    }
}

/// The total size of the temp artifacts among the entries.
pub open spec fn spec_tmp_size(es: Seq<TempEntry>) -> int
    decreases es.len(),
{
    if es.len() == 0 {
        0
    } else {
        spec_tmp_size(es.drop_last()) + if spec_is_temp_artifact(es.last().path@) {
            es.last().size as int
        } else {
            0int
        }
    }
}

proof fn lemma_counts_nonnegative(es: Seq<TempEntry>, max_age_hours: int)
    ensures
        0 <= spec_expired_count(es, max_age_hours) <= es.len(),
        0 <= spec_expired_size(es, max_age_hours),
        0 <= spec_tmp_count(es) <= es.len(),
        0 <= spec_tmp_size(es),
    decreases es.len(),
{
    if es.len() > 0 {
        lemma_counts_nonnegative(es.drop_last(), max_age_hours);
    }
}

/// Decides which entries a sweep with the given age threshold removes:
/// the indices, in increasing order, of every expired temp artifact.
/// Purely a decision — the deletions themselves are the caller's.
pub fn select_expired(entries: &Vec<TempEntry>, max_age_hours: u64) -> (r: Vec<usize>)
    ensures
        forall|t: int|
            0 <= t < r@.len() ==> r@[t] < entries@.len() && spec_expired(
                entries@[r@[t] as int],
                max_age_hours as int,
            ),
        forall|j: int|
            0 <= j < entries@.len() && spec_expired(#[trigger] entries@[j], max_age_hours as int)
                ==> r@.contains(j as usize),
        forall|t1: int, t2: int| 0 <= t1 < t2 < r@.len() ==> r@[t1] < r@[t2],
{
    let n = entries.len();
    let mut r: Vec<usize> = Vec::new();
    let mut i: usize = 0;
    while i < n
        invariant
            i <= n,
            n == entries@.len(),
            forall|t: int|
                0 <= t < r@.len() ==> r@[t] < i && spec_expired(
                    entries@[r@[t] as int],
                    max_age_hours as int,
                ),
            forall|j: int|
                0 <= j < i && spec_expired(#[trigger] entries@[j], max_age_hours as int)
                    ==> r@.contains(j as usize),
            forall|t1: int, t2: int| 0 <= t1 < t2 < r@.len() ==> r@[t1] < r@[t2],
        decreases n - i,
    {
        let e = &entries[i];
        let is_tmp = has_temp_extension(&e.path);
        let old_enough = max_age_hours == 0 || (e.age_seconds as u128) > (max_age_hours as u128)
            * 3600;
        if is_tmp && old_enough {
            let ghost rpre = r@;
            r.push(i);
            proof {
                assert(r@.last() == i);
                assert forall|j: int|
                    0 <= j < i + 1 && spec_expired(#[trigger] entries@[j], max_age_hours as int)
                        implies r@.contains(j as usize) by {
                    if j < i {
                        let t = choose|t: int| 0 <= t < rpre.len() && rpre[t] == j as usize;
                        assert(r@[t] == j as usize);
                    } else {
                        assert(r@[r@.len() - 1] == j as usize);
                    }
                }
            }
        }
        i = i + 1;
    }
    r
}

/// How many entries a finished sweep removed: those due for removal
/// whose deletion succeeded.
pub open spec fn spec_removed_count(es: Seq<TempEntry>, rm: Seq<bool>, max_age_hours: int) -> int
    decreases es.len(),
{
    if es.len() == 0 {
        0
    } else {
        spec_removed_count(es.drop_last(), rm.drop_last(), max_age_hours) + if spec_expired(
            es.last(),
            max_age_hours,
        ) && rm.last() {
            1int
        } else {
            0int
        }
    }
}

/// How many bytes a finished sweep freed: the sizes of the entries due
/// for removal whose deletion succeeded.
pub open spec fn spec_removed_size(es: Seq<TempEntry>, rm: Seq<bool>, max_age_hours: int) -> int
    decreases es.len(),
{
    if es.len() == 0 {
        0
    } else {
        spec_removed_size(es.drop_last(), rm.drop_last(), max_age_hours) + if spec_expired(
            es.last(),
            max_age_hours,
        ) && rm.last() {
            es.last().size as int
        } else {
            0int
        }
    }
}

proof fn lemma_removed_counts_nonnegative(es: Seq<TempEntry>, rm: Seq<bool>, max_age_hours: int)
    ensures
        0 <= spec_removed_count(es, rm, max_age_hours) <= es.len(),
        0 <= spec_removed_size(es, rm, max_age_hours),
    decreases es.len(),
{
    if es.len() > 0 {
        lemma_removed_counts_nonnegative(es.drop_last(), rm.drop_last(), max_age_hours);
    }
}

/// Accounts for one finished sweep: among the walked entries, exactly
/// those due for removal whose deletion the embedder reports as
/// succeeded (`removed[j]`) are counted, and their sizes are summed,
/// saturating at the largest representable count. An entry whose
/// deletion failed is skipped — never counted and never escalated.
pub fn sweep_outcome(entries: &Vec<TempEntry>, removed: &Vec<bool>, max_age_hours: u64) -> (r:
    CleanupResult)
    requires
        removed@.len() == entries@.len(),
    ensures
        r.cleaned_files == spec_removed_count(entries@, removed@, max_age_hours as int),
        r.freed_space == if spec_removed_size(entries@, removed@, max_age_hours as int)
            <= u64::MAX {
            spec_removed_size(entries@, removed@, max_age_hours as int)
        } else {
            u64::MAX as int
        },
{
    let n = entries.len();
    let mut cleaned: usize = 0;
    let mut freed: u64 = 0;
    let mut i: usize = 0;
    proof {
        assert(entries@.take(0) =~= Seq::<TempEntry>::empty());
    }
    while i < n
        invariant
            i <= n,
            n == entries@.len(),
            removed@.len() == entries@.len(),
            cleaned == spec_removed_count(
                entries@.take(i as int),
                removed@.take(i as int),
                max_age_hours as int,
            ),
            freed == if spec_removed_size(
                entries@.take(i as int),
                removed@.take(i as int),
                max_age_hours as int,
            ) <= u64::MAX {
                spec_removed_size(
                    entries@.take(i as int),
                    removed@.take(i as int),
                    max_age_hours as int,
                )
            } else {
                u64::MAX as int
            },
        decreases n - i,
    {
        proof {
            assert(entries@.take(i + 1).drop_last() =~= entries@.take(i as int));
            assert(entries@.take(i + 1).last() == entries@[i as int]);
            assert(removed@.take(i + 1).drop_last() =~= removed@.take(i as int));
            assert(removed@.take(i + 1).last() == removed@[i as int]);
            lemma_removed_counts_nonnegative(
                entries@.take(i as int),
                removed@.take(i as int),
                max_age_hours as int,
            );
        }
        let e = &entries[i];
        let is_tmp = has_temp_extension(&e.path);
        let old_enough = max_age_hours == 0 || (e.age_seconds as u128) > (max_age_hours as u128)
            * 3600;
        if is_tmp && old_enough && removed[i] {
            cleaned = cleaned + 1;
            freed = if freed <= u64::MAX - e.size {
                freed + e.size
            } else {
                u64::MAX
            };
        }
        i = i + 1;
    }
    proof {
        assert(entries@.take(n as int) =~= entries@);
        assert(removed@.take(n as int) =~= removed@);
    }
    CleanupResult { cleaned_files: cleaned, freed_space: freed }
}

/// Law: when every entry due for removal was in fact removed, the sweep
/// accounts for exactly the planned entries and bytes.
pub proof fn lemma_full_removal_matches_plan(es: Seq<TempEntry>, rm: Seq<bool>, max_age_hours: int)
    requires
        rm.len() == es.len(),
        forall|j: int|
            0 <= j < es.len() && spec_expired(#[trigger] es[j], max_age_hours) ==> rm[j],
    ensures
        spec_removed_count(es, rm, max_age_hours) == spec_expired_count(es, max_age_hours),
        spec_removed_size(es, rm, max_age_hours) == spec_expired_size(es, max_age_hours),
    decreases es.len(),
{
    if es.len() > 0 {
        assert(forall|j: int| 0 <= j < es.len() - 1 ==> #[trigger] es.drop_last()[j] == es[j]);
        assert(forall|j: int| 0 <= j < rm.len() - 1 ==> #[trigger] rm.drop_last()[j] == rm[j]);
        assert(es.last() == es[es.len() - 1]);
        assert(rm.last() == rm[rm.len() - 1]);
        lemma_full_removal_matches_plan(es.drop_last(), rm.drop_last(), max_age_hours);
    }
}

/// The age in seconds of the oldest temp artifact among the entries,
/// or `None` when there is none.
pub open spec fn spec_oldest_tmp_age(es: Seq<TempEntry>) -> Option<int>
    decreases es.len(),
{
    if es.len() == 0 {
        Option::None
    } else {
        let rest = spec_oldest_tmp_age(es.drop_last());
        if spec_is_temp_artifact(es.last().path@) {
            match rest {
                Option::None => Option::Some(es.last().age_seconds as int),
                Option::Some(a) => if es.last().age_seconds > a {
                    Option::Some(es.last().age_seconds as int)
                } else {
                    Option::Some(a)
                },
            }
        } else {
            rest
        }
    }
}

/// Takes the inventory of temp artifacts among the entries: how many
/// there are, their total size (saturating), and the age in whole hours
/// of the oldest one.
pub fn temp_files_summary(entries: &Vec<TempEntry>) -> (r: TempFilesInfo)
    ensures
        r.total_files == spec_tmp_count(entries@),
        r.total_size == if spec_tmp_size(entries@) <= u64::MAX {
            spec_tmp_size(entries@)
        } else {
            u64::MAX as int
        },
        r.oldest_file_age_hours == match spec_oldest_tmp_age(entries@) {
            Option::None => Option::<u64>::None,
            Option::Some(a) => Option::Some((a / 3600) as u64),
        },
{
    let n = entries.len();
    let mut count: usize = 0;
    let mut size: u64 = 0;
    let mut oldest: Option<u64> = None;
    let mut i: usize = 0;
    proof {
        assert(entries@.take(0) =~= Seq::<TempEntry>::empty());
    }
    while i < n
        invariant
            i <= n,
            n == entries@.len(),
            count == spec_tmp_count(entries@.take(i as int)),
            size == if spec_tmp_size(entries@.take(i as int)) <= u64::MAX {
                spec_tmp_size(entries@.take(i as int))
            } else {
                u64::MAX as int
            },
            oldest == match spec_oldest_tmp_age(entries@.take(i as int)) {
                Option::None => Option::<u64>::None,
                Option::Some(a) => Option::Some(a as u64),
            },
            spec_oldest_tmp_age(entries@.take(i as int)) matches Some(a) ==> 0 <= a <= u64::MAX,
        decreases n - i,
    {
        proof {
            assert(entries@.take(i + 1).drop_last() =~= entries@.take(i as int));
            assert(entries@.take(i + 1).last() == entries@[i as int]);
            lemma_counts_nonnegative(entries@.take(i as int), 0);
        }
        let e = &entries[i];
        if has_temp_extension(&e.path) {
            count = count + 1;
            size = if size <= u64::MAX - e.size {
                size + e.size
            } else {
                u64::MAX
            };
            oldest = match oldest {
                Option::None => Some(e.age_seconds),
                Option::Some(a) => if e.age_seconds > a {
                    Some(e.age_seconds)
                } else {
                    Some(a)
                },
            };
        }
        i = i + 1;
    }
    proof {
        assert(entries@.take(n as int) =~= entries@);
    }
    let hours = match oldest {
        Option::None => None,
        Option::Some(a) => Some(a / 3600),
    };
    TempFilesInfo { total_files: count, total_size: size, oldest_file_age_hours: hours }
}

/// Law: a sweep with age threshold zero is due to remove every
/// temp-extension entry, regardless of age, freeing exactly their total
/// size.
pub proof fn lemma_sweep_zero_removes_all_tmp(es: Seq<TempEntry>)
    ensures
        spec_expired_count(es, 0) == spec_tmp_count(es),
        spec_expired_size(es, 0) == spec_tmp_size(es),
    decreases es.len(),
{
    if es.len() > 0 {
        lemma_sweep_zero_removes_all_tmp(es.drop_last());
    }
}

/// Law: a sweep under a nonzero age threshold that no entry's age
/// strictly exceeds is due to remove nothing and free nothing.
pub proof fn lemma_sweep_above_all_ages_removes_nothing(es: Seq<TempEntry>, max_age_hours: int)
    requires
        max_age_hours > 0,
        forall|k: int|
            0 <= k < es.len() ==> (#[trigger] es[k]).age_seconds <= max_age_hours * 3600,
    ensures
        spec_expired_count(es, max_age_hours) == 0,
        spec_expired_size(es, max_age_hours) == 0,
    decreases es.len(),
{
    if es.len() > 0 {
        assert(es.last() == es[es.len() - 1]);
        assert(forall|k: int| 0 <= k < es.len() - 1 ==> #[trigger] es.drop_last()[k] == es[k]);
        lemma_sweep_above_all_ages_removes_nothing(es.drop_last(), max_age_hours);
    }
}

} // verus!
