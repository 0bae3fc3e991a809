use local_drive::models::{DiskInfo, StorageError};
use local_drive::placement::{choose_root, SAFETY_MARGIN};
use local_drive::reaper::{select_expired, TempEntry};
use local_drive::session::UploadManager;
use local_drive::storage::FileStorage;

fn disk(path: &str, total: u64, available: u64, accessible: bool) -> DiskInfo {
    let used = total.saturating_sub(available);
    let pct = if total > 0 {
        ((used as u128 * 100) / total as u128) as u8
    } else {
        0
    };
    DiskInfo {
        path: path.to_string(),
        total_space: total,
        used_space: used,
        available_space: available,
        usage_percentage: pct,
        is_accessible: accessible,
    }
}

const MIB: u64 = 1024 * 1024;

#[test]
fn placement_picks_greatest_available() {
    let pool = vec![
        disk("/a", 100 * MIB + SAFETY_MARGIN, 10 * MIB + SAFETY_MARGIN, true),
        disk("/b", 100 * MIB + SAFETY_MARGIN, 50 * MIB + SAFETY_MARGIN, true),
        disk("/c", 100 * MIB + SAFETY_MARGIN, 30 * MIB + SAFETY_MARGIN, true),
    ];
    assert_eq!(choose_root(&pool, MIB), Some(1));
}

#[test]
fn placement_excludes_failing_roots() {
    // inaccessible roots and roots under the margin are excluded
    let pool = vec![
        disk("/a", 500 * MIB, 400 * MIB, false),
        disk("/b", 500 * MIB, 50 * MIB, true),
        disk("/c", 500 * MIB, 200 * MIB, true),
    ];
    assert_eq!(choose_root(&pool, 10 * MIB), Some(2));
}

#[test]
fn placement_boundary_is_inclusive() {
    // a root with exactly required + margin available qualifies
    let pool = vec![disk("/a", 10_000 * MIB, 3 * MIB + SAFETY_MARGIN, true)];
    assert_eq!(choose_root(&pool, 3 * MIB), Some(0));
    assert_eq!(choose_root(&pool, 3 * MIB + 1), None);
}

#[test]
fn placement_tie_takes_first() {
    let pool = vec![
        disk("/a", 500 * MIB, 300 * MIB, true),
        disk("/b", 500 * MIB, 300 * MIB, true),
    ];
    assert_eq!(choose_root(&pool, MIB), Some(0));
}

#[test]
fn placement_empty_pool_is_exhausted() {
    let pool: Vec<DiskInfo> = Vec::new();
    assert_eq!(choose_root(&pool, 0), None);
}

#[test]
fn initiate_computes_chunk_count_and_paths() {
    let mut m = UploadManager::new();
    let pool = vec![disk("/data", 10_000 * MIB, 1_000 * MIB, true)];
    let resp = m
        .initiate(7, 42, &"movie.mp4".to_string(), 10_000_000, 1_048_576, &pool, 500)
        .unwrap();
    assert_eq!(resp.upload_id, 42);
    assert_eq!(resp.chunk_size, 1_048_576);
    assert_eq!(resp.total_chunks, 10);
    let st = m.status(7, 42).unwrap();
    assert_eq!(st.uploaded_chunks, 0);
    assert_eq!(st.created_at, 500);
    assert_eq!(st.updated_at, 500);
    assert_eq!(st.total_size, 10_000_000);
    assert_eq!(st.disk_path, "/data");
    assert_eq!(st.temp_path, "/data/temp/7/42.tmp");
    assert!(!st.is_completed);
}

#[test]
fn initiate_fails_when_no_root_fits() {
    let mut m = UploadManager::new();
    let pool = vec![disk("/small", 100 * MIB, 50 * MIB, true)];
    let r = m.initiate(7, 1, &"f".to_string(), 3 * MIB, MIB, &pool, 500);
    assert!(matches!(r, Err(StorageError::CapacityExhausted)));
    assert!(!m.contains_session(1));
}

#[test]
fn out_of_order_chunks_assemble_identically() {
    let pool = vec![disk("/data", 10_000 * MIB, 1_000 * MIB, true)];
    let c1 = vec![1u8; 4];
    let c2 = vec![2u8; 4];
    let c3 = vec![3u8; 2];

    let mut fwd = UploadManager::new();
    fwd.initiate(1, 10, &"a.bin".to_string(), 10, 4, &pool, 100).unwrap();
    fwd.apply_chunk(1, 10, 1, &c1, 200).unwrap();
    fwd.apply_chunk(1, 10, 2, &c2, 201).unwrap();
    let done = fwd.apply_chunk(1, 10, 3, &c3, 202).unwrap();
    assert!(done.upload_completed);
    let (_, data_fwd) = fwd.complete(1, 10).unwrap();

    let mut ooo = UploadManager::new();
    ooo.initiate(1, 10, &"a.bin".to_string(), 10, 4, &pool, 100).unwrap();
    ooo.apply_chunk(1, 10, 3, &c3, 202).unwrap();
    ooo.apply_chunk(1, 10, 1, &c1, 200).unwrap();
    ooo.apply_chunk(1, 10, 2, &c2, 201).unwrap();
    let (_, data_ooo) = ooo.complete(1, 10).unwrap();

    assert_eq!(data_fwd, data_ooo);
    assert_eq!(data_fwd, vec![1, 1, 1, 1, 2, 2, 2, 2, 3, 3]);
}

#[test]
fn repeated_chunk_leaves_bytes_but_counts_again() {
    let pool = vec![disk("/data", 10_000 * MIB, 1_000 * MIB, true)];
    let mut m = UploadManager::new();
    m.initiate(1, 5, &"b.bin".to_string(), 8, 4, &pool, 100).unwrap();
    let c1 = vec![9u8; 4];
    let c2 = vec![7u8; 4];
    m.apply_chunk(1, 5, 1, &c1, 200).unwrap();
    m.apply_chunk(1, 5, 2, &c2, 201).unwrap();
    // re-apply chunk 1 with identical bytes
    let r = m.apply_chunk(1, 5, 1, &c1, 200).unwrap();
    assert!(r.uploaded);
    let st = m.status(1, 5).unwrap();
    assert_eq!(st.uploaded_chunks, 3); // counted again (documented quirk)
    assert_eq!(st.created_at, 100);
    assert_eq!(st.updated_at, 200); // progress updates move the timestamp
    let (res, data) = m.complete(1, 5).unwrap();
    assert_eq!(data, vec![9, 9, 9, 9, 7, 7, 7, 7]); // bytes unchanged
    assert_eq!(res.file_size, 8);
}

#[test]
fn complete_before_all_chunks_is_rejected_without_mutation() {
    let pool = vec![disk("/data", 10_000 * MIB, 1_000 * MIB, true)];
    let mut m = UploadManager::new();
    m.initiate(1, 6, &"c.bin".to_string(), 8, 4, &pool, 100).unwrap();
    m.apply_chunk(1, 6, 1, &vec![1u8; 4], 200).unwrap();
    let r = m.complete(1, 6);
    assert!(matches!(r, Err(StorageError::Incomplete)));
    // the session is untouched: still present, same progress
    let st = m.status(1, 6).unwrap();
    assert_eq!(st.uploaded_chunks, 1);
    assert_eq!(st.total_chunks, 2);
}

#[test]
fn cancel_removes_session_and_status_reports_not_found() {
    let pool = vec![disk("/data", 10_000 * MIB, 1_000 * MIB, true)];
    let mut m = UploadManager::new();
    m.initiate(1, 8, &"d.bin".to_string(), 8, 4, &pool, 100).unwrap();
    m.apply_chunk(1, 8, 1, &vec![1u8; 4], 200).unwrap();
    m.cancel(1, 8).unwrap();
    let r = m.status(1, 8);
    assert!(matches!(r, Err(StorageError::NotFound)));
    assert!(!m.contains_session(8));
}

#[test]
fn foreign_sessions_are_forbidden() {
    let pool = vec![disk("/data", 10_000 * MIB, 1_000 * MIB, true)];
    let mut m = UploadManager::new();
    m.initiate(1, 9, &"e.bin".to_string(), 8, 4, &pool, 100).unwrap();
    assert!(matches!(m.apply_chunk(2, 9, 1, &vec![0u8; 4], 200), Err(StorageError::Forbidden)));
    assert!(matches!(m.complete(2, 9), Err(StorageError::Forbidden)));
    assert!(matches!(m.cancel(2, 9), Err(StorageError::Forbidden)));
    assert!(matches!(m.status(2, 9), Err(StorageError::Forbidden)));
    // and unknown identifiers report NotFound
    assert!(matches!(m.apply_chunk(1, 99, 1, &vec![0u8; 4], 200), Err(StorageError::NotFound)));
    assert!(matches!(m.complete(1, 99), Err(StorageError::NotFound)));
    assert!(matches!(m.cancel(1, 99), Err(StorageError::NotFound)));
}

#[test]
fn chunk_write_outside_preallocation_is_io_error() {
    let pool = vec![disk("/data", 10_000 * MIB, 1_000 * MIB, true)];
    let mut m = UploadManager::new();
    m.initiate(1, 11, &"f.bin".to_string(), 8, 4, &pool, 100).unwrap();
    // chunk number zero
    assert!(matches!(m.apply_chunk(1, 11, 0, &vec![0u8; 4], 200), Err(StorageError::IOError)));
    // a write that would run past the preallocated length
    assert!(matches!(m.apply_chunk(1, 11, 3, &vec![0u8; 4], 200), Err(StorageError::IOError)));
    assert!(matches!(m.apply_chunk(1, 11, 2, &vec![0u8; 5], 200), Err(StorageError::IOError)));
    // progress is untouched by rejections
    assert_eq!(m.status(1, 11).unwrap().uploaded_chunks, 0);
}

#[test]
fn end_to_end_chunked_upload() {
    // a 3 MiB upload in 1 MiB chunks on a pool of two roots, one with
    // 2 MiB of headroom beyond the safety margin and one with 50 MiB:
    // the 50 MiB root is chosen, the three chunks land, completion
    // returns a stored file of exactly 3 MiB, and the session is gone.
    let pool = vec![
        disk("/small", 10_000 * MIB, 2 * MIB + SAFETY_MARGIN, true),
        disk("/big", 10_000 * MIB, 50 * MIB + SAFETY_MARGIN, true),
    ];
    let mut m = UploadManager::new();
    let resp = m
        .initiate(3, 77, &"video.mkv".to_string(), 3 * MIB, MIB, &pool, 100)
        .unwrap();
    assert_eq!(resp.total_chunks, 3);
    assert_eq!(m.status(3, 77).unwrap().disk_path, "/big");

    let chunk = |b: u8| vec![b; MIB as usize];
    assert!(!m.apply_chunk(3, 77, 1, &chunk(1), 200).unwrap().upload_completed);
    assert!(!m.apply_chunk(3, 77, 2, &chunk(2), 200).unwrap().upload_completed);
    assert!(m.apply_chunk(3, 77, 3, &chunk(3), 200).unwrap().upload_completed);

    let (res, data) = m.complete(3, 77).unwrap();
    assert_eq!(res.file_size, 3 * MIB);
    assert_eq!(data.len(), (3 * MIB) as usize);
    assert_eq!(res.disk_path, "/big");
    assert_eq!(res.file_id.len(), 36);
    assert!(res.filename.ends_with(".mkv"));
    assert_eq!(res.file_path, format!("/big/users/3/{}", res.filename));
    assert!(data[..MIB as usize].iter().all(|&b| b == 1));
    assert!(data[MIB as usize..2 * MIB as usize].iter().all(|&b| b == 2));
    assert!(data[2 * MIB as usize..].iter().all(|&b| b == 3));

    assert!(matches!(m.status(3, 77), Err(StorageError::NotFound)));
}

fn entry(path: &str, size: u64, age_seconds: u64) -> TempEntry {
    TempEntry { path: path.to_string(), size, age_seconds }
}

#[test]
fn sweep_with_zero_age_removes_every_temp_artifact() {
    let fs = FileStorage { storage_paths: vec!["/data".to_string()] };
    let entries = vec![
        entry("/data/temp/1/a.tmp", 100, 0),
        entry("/data/temp/1/b.tmp", 250, 5_000),
        entry("/data/temp/2/keep.bin", 999, 9_000_000),
        entry("/data/temp/2/c.tmp", 50, 9_000_000),
    ];
    let removed = vec![true; entries.len()];
    let r = fs.cleanup_old_temp_files(&entries, &removed, 0);
    assert_eq!(r.cleaned_files, 3);
    assert_eq!(r.freed_space, 400);
}

#[test]
fn sweep_with_huge_age_removes_nothing() {
    let fs = FileStorage { storage_paths: vec!["/data".to_string()] };
    let entries = vec![
        entry("/data/temp/1/a.tmp", 100, 0),
        entry("/data/temp/1/b.tmp", 250, 5_000_000),
    ];
    let removed = vec![true; entries.len()];
    let r = fs.cleanup_old_temp_files(&entries, &removed, 1_000_000);
    assert_eq!(r.cleaned_files, 0);
    assert_eq!(r.freed_space, 0);
}

#[test]
fn sweep_spares_files_at_the_exact_threshold() {
    let fs = FileStorage { storage_paths: vec![] };
    // a nonzero threshold removes only files strictly older than it
    let entries = vec![
        entry("/t/boundary.tmp", 10, 3600),
        entry("/t/older.tmp", 20, 3601),
    ];
    let removed = vec![true; entries.len()];
    let r = fs.cleanup_old_temp_files(&entries, &removed, 1);
    assert_eq!(r.cleaned_files, 1);
    assert_eq!(r.freed_space, 20);
}

#[test]
fn failed_deletions_are_not_counted() {
    let fs = FileStorage { storage_paths: vec![] };
    let entries = vec![
        entry("/t/gone.tmp", 100, 9000),
        entry("/t/stuck.tmp", 250, 9000),
    ];
    // the second deletion failed: the sweep skips it and counts only
    // what actually went away
    let removed = vec![true, false];
    let r = fs.cleanup_old_temp_files(&entries, &removed, 0);
    assert_eq!(r.cleaned_files, 1);
    assert_eq!(r.freed_space, 100);
}

#[test]
fn default_sweep_uses_twenty_four_hours() {
    let fs = FileStorage { storage_paths: vec![] };
    let entries = vec![
        entry("/t/day_old.tmp", 10, 24 * 3600 + 1),
        entry("/t/hour_old.tmp", 20, 3600),
    ];
    let removed = vec![true; entries.len()];
    let r = fs.cleanup_orphaned_temp_files(&entries, &removed);
    assert_eq!(r.cleaned_files, 1);
    assert_eq!(r.freed_space, 10);
}

#[test]
fn select_expired_names_the_entries_to_delete() {
    let entries = vec![
        entry("/t/a.tmp", 1, 100),
        entry("/t/b.bin", 1, 100),
        entry("/t/c.tmp", 1, 10),
        entry("/t/d.tmp", 1, 7201),
    ];
    let picked = select_expired(&entries, 0);
    assert_eq!(picked, vec![0, 2, 3]);
    let picked_old = select_expired(&entries, 2);
    assert_eq!(picked_old, vec![3]);
}

#[test]
fn temp_inventory_reports_count_size_and_oldest_age() {
    let fs = FileStorage { storage_paths: vec![] };
    let entries = vec![
        entry("/t/a.tmp", 100, 7200),
        entry("/t/b.tmp", 200, 3 * 3600 + 100),
        entry("/t/c.bin", 999, 900_000),
    ];
    let info = fs.get_temp_files_info(&entries);
    assert_eq!(info.total_files, 2);
    assert_eq!(info.total_size, 300);
    assert_eq!(info.oldest_file_age_hours, Some(3));

    let empty: Vec<TempEntry> = Vec::new();
    let none = fs.get_temp_files_info(&empty);
    assert_eq!(none.total_files, 0);
    assert_eq!(none.total_size, 0);
    assert_eq!(none.oldest_file_age_hours, None);
}
