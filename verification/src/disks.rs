use vstd::prelude::*;
use crate::decimal::{spec_dec, u128_to_string, u64_to_string};
use crate::models::{DiskInfo, StorageError, StorageInfo};

verus! {

/// One mounted disk as the operating system reports it: where it is
/// mounted and how many bytes it holds and has free.
pub struct DiskProbe {
    pub mount_point: String,
    pub total_space: u64,
    pub available_space: u64,
}

/// Relies on sysinfo::Disks::new_with_refreshed_list, Disk::mount_point,
/// Disk::total_space and Disk::available_space: the mounted disks of
/// this machine at this moment. The result depends on machine state, so
/// nothing is assumed about what comes back.
#[verifier::external_body]
pub fn list_disks() -> (r: Vec<DiskProbe>)
{
    let disks = sysinfo::Disks::new_with_refreshed_list();
    let mut out = Vec::new();
    for d in disks.list() {
        out.push(DiskProbe {
            mount_point: d.mount_point().to_string_lossy().to_string(),
            total_space: d.total_space(),
            available_space: d.available_space(),
        });
    }
    out
}

/// Relies on std::path::Path::exists: whether the path names anything
/// on disk right now. The result depends on machine state.
#[verifier::external_body]
pub fn path_exists(p: &String) -> (r: bool)
{
    std::path::Path::new(p).exists()
}

/// Relies on std::path::Path::is_dir: whether the path names a
/// directory on disk right now. The result depends on machine state.
#[verifier::external_body]
pub fn path_is_dir(p: &String) -> (r: bool)
{
    std::path::Path::new(p).is_dir()
}

/// Relies on std::path::Path::canonicalize: the filesystem's canonical
/// form of an existing path, with symbolic links resolved, or `None`
/// when the filesystem refuses. The result depends on machine state.
#[verifier::external_body]
pub fn canonicalize_path(p: &String) -> (r: Option<String>)
{
    match std::path::Path::new(p).canonicalize() {
        Ok(c) => Some(c.to_string_lossy().to_string()),
        Err(_) => None,
    }
}

/// Whether `p` is a prefix of `s`.
pub open spec fn spec_is_prefix(p: Seq<char>, s: Seq<char>) -> bool {
    p.len() <= s.len() && p == s.subrange(0, p.len() as int)
}

/// Tests whether the characters of `p` begin the characters of `s`.
pub fn is_prefix_of(p: &str, s: &str) -> (r: bool)
    ensures
        r == spec_is_prefix(p@, s@),
{
    let np = p.unicode_len();
    let ns = s.unicode_len();
    if np > ns {
        return false;
    }
    let mut i: usize = 0;
    while i < np
        invariant
            i <= np,
            np == p@.len(),
            np <= ns,
            ns == s@.len(),
            forall|j: int| 0 <= j < i ==> p@[j] == s@[j],
        decreases np - i,
    {
        if p.get_char(i) != s.get_char(i) {
            assert(p@[i as int] != s@.subrange(0, np as int)[i as int]);
            return false;
        }
        i = i + 1;
    }
    assert(p@ =~= s@.subrange(0, np as int));
    true
}

/// The disk whose mount point is the longest nonempty prefix of `path`:
/// the first such disk among equals, or `None` when no mount point
/// prefixes the path.
pub open spec fn spec_best_mount(probes: Seq<DiskProbe>, path: Seq<char>) -> Option<int>
    decreases probes.len(),
{
    if probes.len() == 0 {
        Option::None
    } else {
        let k = probes.len() - 1;
        let rest = spec_best_mount(probes.drop_last(), path);
        let best_len: int = match rest {
            Option::None => 0,
            Option::Some(j) => probes[j].mount_point@.len() as int,
        };
        if spec_is_prefix(probes[k].mount_point@, path)
            && probes[k].mount_point@.len() > best_len {
            Option::Some(k)
        } else {
            rest
        }
    }
}

/// Finds the disk that holds `path`: the probe whose mount point is the
/// longest prefix of the path.
pub fn best_mount_match(probes: &Vec<DiskProbe>, path: &String) -> (r: Option<usize>)
    ensures
        match r {
            Option::Some(k) => Option::Some(k as int) == spec_best_mount(probes@, path@) && k
                < probes@.len(),
            Option::None => spec_best_mount(probes@, path@) is None,
        },
{
    let n = probes.len();
    let mut best: Option<usize> = None;
    let mut best_len: usize = 0;
    let mut i: usize = 0;
    while i < n
        invariant
            i <= n,
            n == probes@.len(),
            match best {
                Option::Some(j) => Option::Some(j as int) == spec_best_mount(
                    probes@.take(i as int),
                    path@,
                ) && j < i && best_len == probes@[j as int].mount_point@.len(),
                Option::None => spec_best_mount(probes@.take(i as int), path@) is None && best_len
                    == 0,
            },
        decreases n - i,
    {
        proof {
            assert(probes@.take(i + 1).drop_last() =~= probes@.take(i as int));
            assert(probes@.take(i + 1).last() == probes@[i as int]);
        }
        let mp_len = probes[i].mount_point.as_str().unicode_len();
        if is_prefix_of(probes[i].mount_point.as_str(), path.as_str()) && mp_len > best_len {
            best = Some(i);
            best_len = mp_len;
        }
        i = i + 1;
    }
    proof {
        assert(probes@.take(n as int) =~= probes@);
    }
    best
}

/// Builds the capacity snapshot of one storage root from probed totals:
/// used space is derived from total and available, floored at zero
/// against filesystem reporting anomalies, and the usage percentage is
/// capped at 100.
pub fn disk_info_from(
    path: String,
    total_space: u64,
    available_space: u64,
    is_accessible: bool,
) -> (d: DiskInfo)
    ensures
        d.wf(),
        d.path == path,
        d.total_space == total_space,
        d.available_space == available_space,
        d.is_accessible == is_accessible,
{
    let used_space = if total_space >= available_space {
        total_space - available_space
    } else {
        0
    };
    let usage_percentage: u8 = if total_space > 0 {
        proof {
            assert((used_space as int * 100) / (total_space as int) <= 100) by (nonlinear_arith)
                requires
                    0 < total_space,
                    0 <= used_space <= total_space;
        }
        (((used_space as u128) * 100) / (total_space as u128)) as u8
    } else {
        0
    };
    DiskInfo { path, total_space, used_space, available_space, usage_percentage, is_accessible }
}

/// The sum of the totals of a pool of snapshots.
pub open spec fn spec_sum_total(ds: Seq<DiskInfo>) -> int
    decreases ds.len(),
{
    if ds.len() == 0 {
        0
    } else {
        spec_sum_total(ds.drop_last()) + ds.last().total_space as int
    }
}

/// The sum of the used bytes of a pool of snapshots.
pub open spec fn spec_sum_used(ds: Seq<DiskInfo>) -> int
    decreases ds.len(),
{
    if ds.len() == 0 {
        0
    } else {
        spec_sum_used(ds.drop_last()) + ds.last().used_space as int
    }
}

/// The sum of the available bytes of a pool of snapshots.
pub open spec fn spec_sum_available(ds: Seq<DiskInfo>) -> int
    decreases ds.len(),
{
    if ds.len() == 0 {
        0
    } else {
        spec_sum_available(ds.drop_last()) + ds.last().available_space as int
    }
}

/// An integer saturated at the largest `u64`.
pub open spec fn spec_sat64(x: int) -> int {
    if x <= u64::MAX {
        x
    } else {
        u64::MAX as int
    }
}

proof fn lemma_sums_nonnegative(ds: Seq<DiskInfo>)
    ensures
        spec_sum_total(ds) >= 0,
        spec_sum_used(ds) >= 0,
        spec_sum_available(ds) >= 0,
    decreases ds.len(),
{
    if ds.len() > 0 {
        lemma_sums_nonnegative(ds.drop_last());
    }
}

proof fn lemma_used_le_total(ds: Seq<DiskInfo>)
    requires
        forall|k: int| 0 <= k < ds.len() ==> (#[trigger] ds[k]).wf(),
    ensures
        spec_sum_used(ds) <= spec_sum_total(ds),
    decreases ds.len(),
{
    if ds.len() > 0 {
        assert(forall|k: int| 0 <= k < ds.len() - 1 ==> #[trigger] ds.drop_last()[k] == ds[k]);
        assert(ds.last() == ds[ds.len() - 1]);
        lemma_used_le_total(ds.drop_last());
    }
}

/// Aggregates a pool of snapshots into one capacity report: totals are
/// summed (saturating at the largest representable count) and the
/// overall usage percentage is derived from the summed figures.
pub fn aggregate_storage_info(disks: Vec<DiskInfo>) -> (r: StorageInfo)
    requires
        forall|k: int| 0 <= k < disks@.len() ==> (#[trigger] disks@[k]).wf(),
    ensures
        r.total_space == spec_sat64(spec_sum_total(disks@)),
        r.used_space == spec_sat64(spec_sum_used(disks@)),
        r.available_space == spec_sat64(spec_sum_available(disks@)),
        r.usage_percentage <= 100,
        r.total_space > 0 ==> r.usage_percentage == (r.used_space as int * 100) / (
        r.total_space as int),
        r.total_space == 0 ==> r.usage_percentage == 0,
        r.disk_count == disks@.len(),
        r.disks == disks,
{
    let n = disks.len();
    let mut total: u64 = 0;
    let mut used: u64 = 0;
    let mut available: u64 = 0;
    let mut i: usize = 0;
    proof {
        assert(disks@.take(0) =~= Seq::<DiskInfo>::empty());
    }
    while i < n
        invariant
            i <= n,
            n == disks@.len(),
            total == spec_sat64(spec_sum_total(disks@.take(i as int))),
            used == spec_sat64(spec_sum_used(disks@.take(i as int))),
            available == spec_sat64(spec_sum_available(disks@.take(i as int))),
        decreases n - i,
    {
        proof {
            assert(disks@.take(i + 1).drop_last() =~= disks@.take(i as int));
            assert(disks@.take(i + 1).last() == disks@[i as int]);
            lemma_sums_nonnegative(disks@.take(i as int));
        }
        let d = &disks[i];
        total = if total <= u64::MAX - d.total_space {
            total + d.total_space
        } else {
            u64::MAX
        };
        used = if used <= u64::MAX - d.used_space {
            used + d.used_space
        } else {
            u64::MAX
        };
        available = if available <= u64::MAX - d.available_space {
            available + d.available_space
        } else {
            u64::MAX
        };
        i = i + 1;
    }
    proof {
        assert(disks@.take(n as int) =~= disks@);
        lemma_used_le_total(disks@);
        lemma_sums_nonnegative(disks@);
    }
    let usage_percentage: u8 = if total > 0 {
        proof {
            assert((used as int * 100) / (total as int) <= 100) by (nonlinear_arith)
                requires
                    0 < total,
                    0 <= used <= total;
        }
        (((used as u128) * 100) / (total as u128)) as u8
    } else {
        0
    };
    StorageInfo {
        total_space: total,
        used_space: used,
        available_space: available,
        usage_percentage,
        disk_count: n,
        disks,
    }
}

/// A byte count in hundredths of a GiB (truncated).
pub open spec fn spec_gib_hundredths(bytes: int) -> int {
    (bytes * 100) / 0x40000000
}

/// The rendering of a byte count as GiB with two fractional digits.
pub open spec fn spec_gib_string(bytes: int) -> Seq<char> {
    let h = spec_gib_hundredths(bytes);
    spec_dec(h / 100) + "."@ + (if h % 100 < 10 {
        "0"@
    } else {
        Seq::<char>::empty()
    }) + spec_dec(h % 100)
}

/// Renders a byte count as whole GiB with two fractional digits.
pub fn gib_string(bytes: u64) -> (s: String)
    ensures
        s@ == spec_gib_string(bytes as int),
{
    let h = ((bytes as u128) * 100) / 0x40000000;
    let mut s = u128_to_string(h / 100);
    s.append(".");
    if h % 100 < 10 {
        s.append("0");
    }
    let frac = u128_to_string(h % 100);
    s.append(frac.as_str());
    s
}

/// One storage root's block in the usage report.
pub open spec fn spec_disk_block(index: int, d: DiskInfo) -> Seq<char> {
    "Disk "@ + spec_dec(index + 1) + ": "@ + d.path@ + "\n  Total: "@ + spec_gib_string(
        d.total_space as int,
    ) + " GB\n  Used: "@ + spec_gib_string(d.used_space as int) + " GB\n  Available: "@
        + spec_gib_string(d.available_space as int) + " GB\n  Usage: "@ + spec_dec(
        d.usage_percentage as int,
    ) + "%\n  Accessible: "@ + (if d.is_accessible {
        "true"@
    } else {
        "false"@
    }) + "\n\n"@
}

/// The per-root blocks of the usage report, in pool order.
pub open spec fn spec_disk_blocks(ds: Seq<DiskInfo>) -> Seq<char>
    decreases ds.len(),
{
    if ds.len() == 0 {
        Seq::empty()
    } else {
        spec_disk_blocks(ds.drop_last()) + spec_disk_block(ds.len() - 1, ds.last())
    }
}

/// The whole usage report: a header with the pool size, then one block
/// per storage root.
pub open spec fn spec_usage_report(ds: Seq<DiskInfo>) -> Seq<char> {
    "Disk Usage Report:\n"@ + "Total Disks: "@ + spec_dec(ds.len() as int) + "\n"@
        + spec_disk_blocks(ds)
}

#[verifier::rlimit(60)]
fn append_disk_block(s: &mut String, index: u64, d: &DiskInfo)
    requires
        index < u64::MAX,
    ensures
        final(s)@ == old(s)@ + spec_disk_block(index as int, *d),
{
    s.append("Disk ");
    let num = u64_to_string(index + 1);
    s.append(num.as_str());
    s.append(": ");
    s.append(d.path.as_str());
    s.append("\n  Total: ");
    let t = gib_string(d.total_space);
    s.append(t.as_str());
    s.append(" GB\n  Used: ");
    let u = gib_string(d.used_space);
    s.append(u.as_str());
    s.append(" GB\n  Available: ");
    let a = gib_string(d.available_space);
    s.append(a.as_str());
    s.append(" GB\n  Usage: ");
    let p = u64_to_string(d.usage_percentage as u64);
    s.append(p.as_str());
    s.append("%\n  Accessible: ");
    if d.is_accessible {
        s.append("true");
    } else {
        s.append("false");
    }
    s.append("\n\n");
}

/// Renders the human-readable usage report for a pool of snapshots.
pub fn usage_report(disks: &Vec<DiskInfo>) -> (s: String)
    ensures
        s@ == spec_usage_report(disks@),
{
    let mut s = String::new();
    s.append("Disk Usage Report:\n");
    s.append("Total Disks: ");
    let n = disks.len();
    let count = u64_to_string(n as u64);
    s.append(count.as_str());
    s.append("\n");
    let ghost header = s@;
    let mut i: usize = 0;
    proof {
        assert(disks@.take(0) =~= Seq::<DiskInfo>::empty());
        assert(s@ =~= header + spec_disk_blocks(disks@.take(0)));
    }
    while i < n
        invariant
            i <= n,
            n == disks@.len(),
            n <= u64::MAX,
            s@ == header + spec_disk_blocks(disks@.take(i as int)),
        decreases n - i,
    {
        proof {
            assert(disks@.take(i + 1).drop_last() =~= disks@.take(i as int));
            assert(disks@.take(i + 1).last() == disks@[i as int]);
        }
        append_disk_block(&mut s, i as u64, &disks[i]);
        i = i + 1;
    }
    proof {
        assert(disks@.take(n as int) =~= disks@);
    }
    s
}

} // verus!
