use local_drive::chunks::total_chunks;
use local_drive::config::{parse_port, parse_storage_paths, Config};
use local_drive::decimal::{u128_to_string, u64_to_string};
use local_drive::disks::{aggregate_storage_info, best_mount_match, disk_info_from, gib_string,
    is_prefix_of, usage_report, DiskProbe};
use local_drive::models::DiskInfo;
use local_drive::paths::{derive_stored_filename, extension_of, has_temp_extension, join_path,
    normalize, temp_path_for, user_dir_for};

#[test]
fn chunk_count_is_the_ceiling() {
    assert_eq!(total_chunks(10_000_000, 1_048_576), 10);
    assert_eq!(total_chunks(8, 4), 2);
    assert_eq!(total_chunks(9, 4), 3);
    assert_eq!(total_chunks(1, 4), 1);
    assert_eq!(total_chunks(0, 4), 0);
    assert_eq!(total_chunks(u64::MAX, 1), u64::MAX);
}

#[test]
fn decimal_rendering() {
    assert_eq!(u64_to_string(0), "0");
    assert_eq!(u64_to_string(7), "7");
    assert_eq!(u64_to_string(12345), "12345");
    assert_eq!(u64_to_string(u64::MAX), "18446744073709551615");
    assert_eq!(u128_to_string(340282366920938463463374607431768211455), "340282366920938463463374607431768211455");
}

#[test]
fn normalization_makes_one_absolute_form() {
    let cwd = "/home/user".to_string();
    assert_eq!(normalize(&"a/b/../c".to_string(), &cwd), "/home/user/a/c");
    assert_eq!(normalize(&"/x//y///z/".to_string(), &cwd), "/x/y/z");
    assert_eq!(normalize(&"./d".to_string(), &cwd), "/home/user/d");
    assert_eq!(normalize(&".".to_string(), &cwd), "/home/user");
    assert_eq!(normalize(&"/".to_string(), &cwd), "/");
    assert_eq!(normalize(&"/../..".to_string(), &cwd), "/");
    assert_eq!(normalize(&"/a/./b".to_string(), &cwd), "/a/b");
}

#[test]
fn normalization_handles_foreign_separators_and_verbatim_markers() {
    let cwd = "/srv".to_string();
    assert_eq!(normalize(&"a\\b\\c".to_string(), &cwd), "/srv/a/b/c");
    assert_eq!(normalize(&"\\\\?\\srv\\data".to_string(), &"/".to_string()), "/srv/data");
    assert_eq!(normalize(&"\\data\\x".to_string(), &cwd), "/data/x");
}

#[test]
fn normalization_is_idempotent() {
    let cwd = "/srv".to_string();
    for p in ["storage", "/data//files/", "a/../../b", ".", "/", "x/./y/z/..", "\\\\?\\d\\e"] {
        let once = normalize(&p.to_string(), &cwd);
        let twice = normalize(&once, &cwd);
        assert_eq!(twice, once);
        // a second pass against a different working directory changes
        // nothing either: the result is already absolute
        let elsewhere = normalize(&once, &"/other".to_string());
        assert_eq!(elsewhere, once);
    }
}

#[test]
fn extensions_follow_the_last_dot_of_the_file_name() {
    assert_eq!(extension_of(&"photo.jpg".to_string()), "jpg");
    assert_eq!(extension_of(&"archive.tar.gz".to_string()), "gz");
    assert_eq!(extension_of(&"noext".to_string()), "");
    assert_eq!(extension_of(&".bashrc".to_string()), "");
    assert_eq!(extension_of(&"dir.d/noext".to_string()), "");
    assert_eq!(extension_of(&"trailing.".to_string()), "");
}

#[test]
fn stored_filenames_keep_the_extension() {
    let id = "0123456789abcdef0123456789abcdef0123".to_string();
    assert_eq!(
        derive_stored_filename(&id, &"photo.jpg".to_string()),
        format!("{}.jpg", id)
    );
    assert_eq!(derive_stored_filename(&id, &"noext".to_string()), id);
    assert_eq!(derive_stored_filename(&id, &".hidden".to_string()), id);
}

#[test]
fn temp_artifacts_are_recognized_by_extension() {
    assert!(has_temp_extension(&"/d/temp/1/abc.tmp".to_string()));
    assert!(!has_temp_extension(&"/d/temp/1/abc.tmp.bak".to_string()));
    assert!(!has_temp_extension(&"/d/temp/tmp".to_string()));
    assert!(!has_temp_extension(&"/d/temp/1/.tmp".to_string()));
}

#[test]
fn session_paths_are_deterministic() {
    assert_eq!(temp_path_for(&"/data".to_string(), 7, 42), "/data/temp/7/42.tmp");
    assert_eq!(user_dir_for(&"/data".to_string(), 7), "/data/users/7");
    assert_eq!(join_path(&"/a/b".to_string(), &"c.txt".to_string()), "/a/b/c.txt");
}

#[test]
fn prefix_and_mount_matching() {
    assert!(is_prefix_of("/data", "/data/files"));
    assert!(!is_prefix_of("/data/files", "/data"));
    assert!(is_prefix_of("", "/anything"));
    let probes = vec![
        DiskProbe { mount_point: "/".to_string(), total_space: 100, available_space: 10 },
        DiskProbe { mount_point: "/data".to_string(), total_space: 200, available_space: 20 },
        DiskProbe { mount_point: "/dat".to_string(), total_space: 300, available_space: 30 },
    ];
    // the longest matching mount point wins
    assert_eq!(best_mount_match(&probes, &"/data/files/x".to_string()), Some(1));
    assert_eq!(best_mount_match(&probes, &"/var/log".to_string()), Some(0));
    // no mount point prefixes a relative path: the probe fails
    assert_eq!(best_mount_match(&probes, &"relative/path".to_string()), None);
}

#[test]
fn disk_snapshot_math() {
    let d = disk_info_from("/d".to_string(), 100, 25, true);
    assert_eq!(d.used_space, 75);
    assert_eq!(d.usage_percentage, 75);
    assert!(d.is_accessible);

    // reported available above total: used is floored at zero
    let anomaly = disk_info_from("/d".to_string(), 50, 80, true);
    assert_eq!(anomaly.used_space, 0);
    assert_eq!(anomaly.usage_percentage, 0);

    let empty = disk_info_from("/d".to_string(), 0, 0, false);
    assert_eq!(empty.usage_percentage, 0);
}

#[test]
fn storage_info_aggregates_the_pool() {
    let pool = vec![
        disk_info_from("/a".to_string(), 100, 40, true),
        disk_info_from("/b".to_string(), 300, 200, true),
    ];
    let si = aggregate_storage_info(pool);
    assert_eq!(si.total_space, 400);
    assert_eq!(si.used_space, 160);
    assert_eq!(si.available_space, 240);
    assert_eq!(si.usage_percentage, 40);
    assert_eq!(si.disk_count, 2);
    assert_eq!(si.disks.len(), 2);
}

#[test]
fn gib_rendering_truncates_to_hundredths() {
    const GIB: u64 = 1024 * 1024 * 1024;
    assert_eq!(gib_string(GIB), "1.00");
    assert_eq!(gib_string(GIB / 2), "0.50");
    assert_eq!(gib_string(GIB + GIB / 2), "1.50");
    assert_eq!(gib_string(0), "0.00");
    assert_eq!(gib_string(GIB / 100), "0.00"); // truncated, not rounded
    assert_eq!(gib_string(GIB / 100 + 1), "0.01");
    assert_eq!(gib_string(GIB * 123 + GIB / 25 + 1), "123.04");
}

#[test]
fn usage_report_renders_each_root() {
    const GIB: u64 = 1024 * 1024 * 1024;
    let pool = vec![disk_info_from("/d".to_string(), GIB, 0, true)];
    let report = usage_report(&pool);
    assert_eq!(
        report,
        "Disk Usage Report:\nTotal Disks: 1\nDisk 1: /d\n  Total: 1.00 GB\n  Used: 1.00 GB\n  Available: 0.00 GB\n  Usage: 100%\n  Accessible: true\n\n"
    );
}

#[test]
fn storage_paths_are_split_and_trimmed() {
    let parsed = parse_storage_paths(&" /a , /b,/c ".to_string());
    assert_eq!(parsed, vec!["/a".to_string(), "/b".to_string(), "/c".to_string()]);
    let single = parse_storage_paths(&"./storage".to_string());
    assert_eq!(single, vec!["./storage".to_string()]);
    let with_empty = parse_storage_paths(&"/a,,/b".to_string());
    assert_eq!(with_empty, vec!["/a".to_string(), "".to_string(), "/b".to_string()]);
}

#[test]
fn port_parsing() {
    assert_eq!(parse_port("3001"), Some(3001));
    assert_eq!(parse_port("0"), Some(0));
    assert_eq!(parse_port("65535"), Some(65535));
    assert_eq!(parse_port("65536"), None);
    assert_eq!(parse_port(""), None);
    assert_eq!(parse_port("80a"), None);
    assert_eq!(parse_port("-1"), None);
}

#[test]
fn config_assembly_falls_back_on_a_bad_port() {
    let c = Config::from_values(
        "postgresql://localhost/localdrive".to_string(),
        &"./storage, /mnt/disk2".to_string(),
        &"nonsense".to_string(),
        "secret".to_string(),
    );
    assert_eq!(c.port, 3001);
    assert_eq!(c.storage_paths, vec!["./storage".to_string(), "/mnt/disk2".to_string()]);
    let c2 = Config::from_values(
        "u".to_string(),
        &"/x".to_string(),
        &"8080".to_string(),
        "s".to_string(),
    );
    assert_eq!(c2.port, 8080);
}
