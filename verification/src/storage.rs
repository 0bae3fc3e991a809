use vstd::prelude::*;
use crate::config::Config;
use crate::disks::{
    aggregate_storage_info, best_mount_match, canonicalize_path, disk_info_from, list_disks,
    path_exists, path_is_dir, spec_best_mount, usage_report, DiskProbe,
};
use crate::ids::fresh_id;
use crate::models::{CleanupResult, DiskInfo, StorageError, StorageInfo, StorageResult, TempFilesInfo};
use crate::paths::{
    derive_stored_filename, join_path, normalize, spec_joined, spec_last_index_of,
    spec_normalize, spec_stored_filename, spec_user_dir, user_dir_for,
};
use crate::placement::choose_root;
use crate::reaper::{
    spec_oldest_tmp_age, spec_removed_count, spec_removed_size, spec_tmp_count, spec_tmp_size,
    sweep_outcome, temp_files_summary, TempEntry,
};

verus! {

/// A path already in its normal lexical form: normalizing it again,
/// against any working directory, returns it unchanged.
pub open spec fn spec_is_normal(s: Seq<char>) -> bool {
    forall|w: Seq<char>| #[trigger] spec_normalize(s, w) == s
}

/// The storage pool: the configured roots, each held in canonical form.
pub struct FileStorage {
    pub storage_paths: Vec<String>,
}

fn parent_and_name(path: &String) -> (r: Option<(String, String)>)
    ensures
        match r {
            Some(p) => {
                let k = spec_last_index_of(path@, '/');
                &&& k >= 0
                &&& p.0@ == if k == 0 {
                    "/"@
                } else {
                    path@.subrange(0, k)
                }
                &&& p.1@ == path@.subrange(k + 1, path@.len() as int)
            },
            None => spec_last_index_of(path@, '/') < 0,
        },
{
    proof {
        crate::paths::lemma_last_index_of_bounds(path@, '/');
    }
    let n = path.as_str().unicode_len();
    match crate::paths::last_index_of(path.as_str(), '/') {
        Option::None => None,
        Option::Some(k) => {
            let name = String::from_str(path.as_str().substring_char(k + 1, n));
            let parent = if k == 0 {
                String::from_str("/")
            } else {
                String::from_str(path.as_str().substring_char(0, k))
            };
            Some((parent, name))
        },
    }
}

impl FileStorage {
    /// Builds the pool from configuration: every configured root is
    /// brought to its canonical form. (Creating missing root
    /// directories on disk is the embedder's I/O step.)
    pub fn new(config: &Config, cwd: &String) -> (fs: FileStorage)
        ensures
            fs.storage_paths@.len() == config.storage_paths@.len(),
            forall|k: int|
                0 <= k < fs.storage_paths@.len() ==> spec_is_normal(
                    (#[trigger] fs.storage_paths@[k])@,
                ),
    {
        let n = config.storage_paths.len();
        let mut storage_paths: Vec<String> = Vec::new();
        let mut i: usize = 0;
        while i < n
            invariant
                i <= n,
                n == config.storage_paths@.len(),
                storage_paths@.len() == i,
                forall|k: int|
                    0 <= k < storage_paths@.len() ==> spec_is_normal(
                        (#[trigger] storage_paths@[k])@,
                    ),
            decreases n - i,
        {
            let p = Self::normalize_path(&config.storage_paths[i], cwd);
            storage_paths.push(p);
            i = i + 1;
        }
        FileStorage { storage_paths }
    }

    /// Canonicalizes a path into one unambiguous, comparison-stable
    /// absolute form, whether or not the path exists yet. When it
    /// exists, the filesystem's canonical form (symbolic links
    /// resolved) is taken; when it does not, the canonical form of its
    /// parent is rejoined with the leaf, so that a preallocated file
    /// can later be compared and reopened reliably. Every result then
    /// passes through the exact lexical normalization, so it is always
    /// in normal form; only what the filesystem answered is unverified.
    pub fn normalize_path(path: &String, cwd: &String) -> (r: String)
        ensures
            spec_is_normal(r@),
    {
        let lex = normalize(path, cwd);
        proof {
            crate::paths::lemma_normal_form_is_fixed_point(path@, cwd@);
        }
        if path_exists(&lex) {
            match canonicalize_path(&lex) {
                Option::Some(c) => {
                    let r = normalize(&c, cwd);
                    proof {
                        crate::paths::lemma_normal_form_is_fixed_point(c@, cwd@);
                    }
                    r
                },
                Option::None => lex,
            }
        } else {
            match parent_and_name(&lex) {
                Option::Some((parent, name)) => {
                    if path_exists(&parent) {
                        match canonicalize_path(&parent) {
                            Option::Some(cp) => {
                                let joined = join_path(&cp, &name);
                                let r = normalize(&joined, cwd);
                                proof {
                                    crate::paths::lemma_normal_form_is_fixed_point(joined@, cwd@);
                                }
                                r
                            },
                            Option::None => lex,
                        }
                    } else {
                        lex
                    }
                },
                Option::None => lex,
            }
        }
    }

    /// Probes one root against the probed disk list: capacity comes
    /// from the disk whose mount point is the longest prefix of the
    /// root's path; accessibility from the filesystem. Fails with
    /// `ProbeError` exactly when no mounted disk holds the path.
    fn probe_one(probes: &Vec<DiskProbe>, path: &String, accessible: bool) -> (r: Result<
        DiskInfo,
        StorageError,
    >)
        ensures
            match r {
                Result::Ok(d) => {
                    &&& d.wf()
                    &&& d.path == *path
                    &&& d.is_accessible == accessible
                    &&& spec_best_mount(probes@, path@) is Some
                    &&& d.total_space == probes@[spec_best_mount(
                        probes@,
                        path@,
                    )->Some_0].total_space
                    &&& d.available_space == probes@[spec_best_mount(
                        probes@,
                        path@,
                    )->Some_0].available_space
                },
                Result::Err(e) => e == StorageError::ProbeError && spec_best_mount(
                    probes@,
                    path@,
                ) is None,
            },
    {
        match best_mount_match(probes, path) {
            Option::None => Err(StorageError::ProbeError),
            Option::Some(j) => Ok(
                disk_info_from(
                    path.clone(),
                    probes[j].total_space,
                    probes[j].available_space,
                    accessible,
                ),
            ),
        }
    }

    /// Takes a capacity snapshot of every configured root. Fails with
    /// `ProbeError` when some root lies on no mounted disk; each
    /// returned snapshot is internally consistent and names its root.
    pub fn get_disk_info(&self) -> (r: Result<Vec<DiskInfo>, StorageError>)
        ensures
            match r {
                Result::Ok(ds) => ds@.len() == self.storage_paths@.len() && forall|k: int|
                    0 <= k < ds@.len() ==> (#[trigger] ds@[k]).wf() && ds@[k].path
                        == self.storage_paths@[k],
                Result::Err(e) => e == StorageError::ProbeError,
            },
    {
        let probes = list_disks();
        let n = self.storage_paths.len();
        let mut ds: Vec<DiskInfo> = Vec::new();
        let mut i: usize = 0;
        while i < n
            invariant
                i <= n,
                n == self.storage_paths@.len(),
                ds@.len() == i,
                forall|k: int|
                    0 <= k < ds@.len() ==> (#[trigger] ds@[k]).wf() && ds@[k].path
                        == self.storage_paths@[k],
            decreases n - i,
        {
            let path = &self.storage_paths[i];
            let accessible = path_exists(path) && path_is_dir(path);
            match Self::probe_one(&probes, path, accessible) {
                Result::Ok(d) => {
                    ds.push(d);
                },
                Result::Err(e) => {
                    return Err(e);
                },
            }
            i = i + 1;
        }
        Ok(ds)
    }

    /// Aggregates the pool's capacity: the sum of every root's totals
    /// (saturating), the overall usage percentage, and the per-root
    /// breakdown.
    pub fn get_storage_info(&self) -> (r: Result<StorageInfo, StorageError>)
        ensures
            match r {
                Result::Ok(si) => {
                    &&& si.disks@.len() == self.storage_paths@.len()
                    &&& si.disk_count == si.disks@.len()
                    &&& si.total_space == crate::disks::spec_sat64(
                        crate::disks::spec_sum_total(si.disks@),
                    )
                    &&& si.used_space == crate::disks::spec_sat64(
                        crate::disks::spec_sum_used(si.disks@),
                    )
                    &&& si.available_space == crate::disks::spec_sat64(
                        crate::disks::spec_sum_available(si.disks@),
                    )
                    &&& si.usage_percentage <= 100
                    &&& (si.total_space > 0 ==> si.usage_percentage == (si.used_space as int
                        * 100) / (si.total_space as int))
                    &&& (si.total_space == 0 ==> si.usage_percentage == 0)
                    &&& forall|k: int| 0 <= k < si.disks@.len() ==> (#[trigger] si.disks@[k]).wf()
                },
                Result::Err(e) => e == StorageError::ProbeError,
            },
    {
        match self.get_disk_info() {
            Result::Ok(ds) => Ok(aggregate_storage_info(ds)),
            Result::Err(e) => Err(e),
        }
    }

    /// Renders the human-readable usage report over the pool's current
    /// snapshots: the report of one snapshot per configured root, each
    /// internally consistent; `usage_report` states the rendering
    /// exactly.
    pub fn get_disk_usage_report(&self) -> (r: Result<String, StorageError>)
        ensures
            match r {
                Result::Ok(s) => exists|ds: Seq<DiskInfo>|
                    s@ == crate::disks::spec_usage_report(ds) && ds.len()
                        == self.storage_paths@.len() && forall|k: int|
                        0 <= k < ds.len() ==> (#[trigger] ds[k]).wf() && ds[k].path
                            == self.storage_paths@[k],
                Result::Err(e) => e == StorageError::ProbeError,
            },
    {
        match self.get_disk_info() {
            Result::Ok(ds) => {
                let s = usage_report(&ds);
                proof {
                    assert(s@ == crate::disks::spec_usage_report(ds@) && ds@.len()
                        == self.storage_paths@.len() && forall|k: int|
                        0 <= k < ds@.len() ==> (#[trigger] ds@[k]).wf() && ds@[k].path
                            == self.storage_paths@[k]);
                }
                Ok(s)
            },
            Result::Err(e) => Err(e),
        }
    }

    /// Picks the storage root for a new file of `file_size` bytes:
    /// probes every root, excludes the ones whose probe fails or that
    /// miss the safety margin, and takes the one with the greatest
    /// available space. Returns `None` when no root qualifies. The
    /// placement rule itself is `choose_root`, which this applies to
    /// the snapshots the probes returned.
    pub fn find_available_disk(&self, file_size: u64) -> (r: Result<Option<String>, StorageError>)
        ensures
            r is Ok,
            match r {
                Result::Ok(opt) => match opt {
                    Option::Some(p) => exists|k: int|
                        0 <= k < self.storage_paths@.len() && p == #[trigger] self.storage_paths@[k],
                    Option::None => true,
                },
                Result::Err(_) => false,
            },
    {
        let probes = list_disks();
        let n = self.storage_paths.len();
        let mut ds: Vec<DiskInfo> = Vec::new();
        let mut i: usize = 0;
        while i < n
            invariant
                i <= n,
                n == self.storage_paths@.len(),
                forall|k: int|
                    0 <= k < ds@.len() ==> exists|j: int|
                        0 <= j < self.storage_paths@.len() && (#[trigger] ds@[k]).path
                            == self.storage_paths@[j],
            decreases n - i,
        {
            let path = &self.storage_paths[i];
            let accessible = path_exists(path) && path_is_dir(path);
            match Self::probe_one(&probes, path, accessible) {
                Result::Ok(d) => {
                    ds.push(d);
                },
                Result::Err(_) => {
                    // a root whose probe fails is excluded from this
                    // placement pass, not disabled permanently
                },
            }
            i = i + 1;
        }
        match choose_root(&ds, file_size) {
            Option::Some(k) => Ok(Some(ds[k].path.clone())),
            Option::None => Ok(None),
        }
    }

    /// Stores one complete file in a single shot: picks a root sized to
    /// the data, generates the storage identifier, and derives the
    /// permanent name and path; the caller performs the byte write to
    /// the returned path. Fails with `CapacityExhausted` when no root
    /// qualifies.
    pub fn store_file(&self, file_data: &Vec<u8>, user_id: u128, original_filename: &String) -> (r:
        Result<StorageResult, StorageError>)
        ensures
            match r {
                Result::Ok(res) => {
                    &&& res.file_size == file_data@.len()
                    &&& res.file_id@.len() == 36
                    &&& res.filename@ == spec_stored_filename(res.file_id@, original_filename@)
                    &&& res.file_path@ == spec_joined(
                        spec_user_dir(res.disk_path@, user_id as int),
                        res.filename@,
                    )
                    &&& exists|k: int|
                        0 <= k < self.storage_paths@.len() && res.disk_path
                            == #[trigger] self.storage_paths@[k]
                },
                Result::Err(e) => e == StorageError::CapacityExhausted,
            },
    {
        let file_size = file_data.len() as u64;
        let disk_path = match self.find_available_disk(file_size) {
            Result::Ok(Option::Some(p)) => p,
            Result::Ok(Option::None) => {
                return Err(StorageError::CapacityExhausted);
            },
            Result::Err(_) => {
                return Err(StorageError::CapacityExhausted);
            },
        };
        let file_id = fresh_id();
        let filename = derive_stored_filename(&file_id, original_filename);
        let user_dir = user_dir_for(&disk_path, user_id);
        let file_path = join_path(&user_dir, &filename);
        Ok(
            StorageResult {
                file_id,
                filename,
                file_path,
                disk_path,
                file_size: file_data.len() as u64,
            },
        )
    }

    /// Whether the file at this path exists right now, after the path
    /// is brought to canonical form.
    pub fn file_exists(&self, file_path: &String, cwd: &String) -> bool {
        let normalized = Self::normalize_path(file_path, cwd);
        path_exists(&normalized)
    }

    /// Accounts for a reaper sweep over the walked temp entries: counts
    /// exactly the temp artifacts that were due for removal (strictly
    /// older than `max_age_hours`, or all of them when the threshold is
    /// zero) and whose deletion the embedder reports as succeeded
    /// (`removed[j]`), and sums their sizes. A deletion failure is
    /// skipped — the entry is left out of both figures and the sweep
    /// goes on — never escalated. The walk and the deletions are the
    /// embedder's I/O; `crate::reaper::select_expired` names the
    /// entries to delete.
    pub fn cleanup_old_temp_files(
        &self,
        entries: &Vec<TempEntry>,
        removed: &Vec<bool>,
        max_age_hours: u64,
    ) -> (r: CleanupResult)
        requires
            removed@.len() == entries@.len(),
        ensures
            r.cleaned_files == spec_removed_count(entries@, removed@, max_age_hours as int),
            r.freed_space == if spec_removed_size(entries@, removed@, max_age_hours as int)
                <= u64::MAX {
                spec_removed_size(entries@, removed@, max_age_hours as int)
            } else {
                u64::MAX as int
            },
    {
        sweep_outcome(entries, removed, max_age_hours)
    }

    /// The unattended sweep: cleanup with the default age threshold of
    /// 24 hours.
    pub fn cleanup_orphaned_temp_files(&self, entries: &Vec<TempEntry>, removed: &Vec<bool>) -> (r:
        CleanupResult)
        requires
            removed@.len() == entries@.len(),
        ensures
            r.cleaned_files == spec_removed_count(entries@, removed@, 24),
            r.freed_space == if spec_removed_size(entries@, removed@, 24) <= u64::MAX {
                spec_removed_size(entries@, removed@, 24)
            } else {
                u64::MAX as int
            },
    {
        self.cleanup_old_temp_files(entries, removed, 24)
    }

    /// Takes the inventory of temp artifacts among the walked entries:
    /// their count, their total size, and the age in whole hours of the
    /// oldest.
    pub fn get_temp_files_info(&self, entries: &Vec<TempEntry>) -> (r: TempFilesInfo)
        ensures
            r.total_files == spec_tmp_count(entries@),
            r.total_size == if spec_tmp_size(entries@) <= u64::MAX {
                spec_tmp_size(entries@)
            } else {
                u64::MAX as int
            },
            r.oldest_file_age_hours == match spec_oldest_tmp_age(entries@) {
                Option::None => Option::<u64>::None,
                Option::Some(a) => Option::Some((a / 3600) as u64),
            },
    {
        temp_files_summary(entries)
    }
}

} // verus!
