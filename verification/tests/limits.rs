//! What the system and the repository allow for, and when to warn.
use branchdiff::limits::get_fd_soft_limit;
use branchdiff::limits::is_wsl;
use branchdiff::limits::DiffMetrics;
use branchdiff::limits::DiffThresholds;
use branchdiff::limits::SystemLimits;
use branchdiff::limits::WatchCount;
use branchdiff::limits::WatcherMetrics;

#[test]
fn test_fd_limit_is_capped_and_has_a_default() {
    assert_eq!(get_fd_soft_limit(Some(1024)), 1024);
    assert_eq!(get_fd_soft_limit(Some(100_000)), 100_000);
    assert_eq!(get_fd_soft_limit(Some(u64::MAX)), 100_000);
    assert_eq!(get_fd_soft_limit(None), 256);
    let limits = SystemLimits::detect(None);
    assert_eq!(limits.fd_soft_limit, 256);
    assert_eq!(limits.max_recommended_watches, 128);
}

#[test]
fn test_is_wsl_looks_for_microsoft() {
    assert!(is_wsl(Some("Linux version 5.15.90.1-microsoft-standard-WSL2")));
    assert!(is_wsl(Some("Linux version 4.4.0-19041-Microsoft")));
    assert!(!is_wsl(Some("Linux version 6.1.0-13-amd64 (debian-kernel)")));
    assert!(!is_wsl(Some("microsof")));
    assert!(!is_wsl(Some("")));
}

/// Without `/proc/version`, as on other systems, there is no such subsystem.
#[test]
fn test_is_wsl_returns_false_on_non_linux() {
    assert!(!is_wsl(None));
}

#[test]
fn test_watch_count_respects_limit() {
    let mut count = WatchCount::new(Some(5));
    for _ in 0..11 {
        let watched = count.has_room();
        count.count(watched);
    }
    assert_eq!(count.metrics.directory_count, 11);
    assert_eq!(count.added, 5);
    assert_eq!(count.metrics.skipped_count, 6);

    let mut count = WatchCount::new(None);
    assert!(count.has_room());
    count.count(false);
    count.count(true);
    assert_eq!(count.metrics, WatcherMetrics { directory_count: 2, skipped_count: 1 });
}

#[test]
fn test_diff_warning_texts() {
    let thresholds = DiffThresholds::default();
    let lines = DiffMetrics { total_lines: 50_001, file_count: 501 };
    assert_eq!(thresholds.check_diff_warning(&lines).unwrap(), "Large diff: 50k lines");
    let files = DiffMetrics { total_lines: 50_000, file_count: 501 };
    assert_eq!(thresholds.check_diff_warning(&files).unwrap(), "Many files: 501");
    let neither = DiffMetrics { total_lines: 50_000, file_count: 500 };
    assert_eq!(thresholds.check_diff_warning(&neither), None);
}

#[test]
fn test_system_limits_detect_returns_sane_values() {
    let limits = SystemLimits::detect(Some(1024));
    // Should be at least 64 on any modern system
    assert!(limits.fd_soft_limit >= 64);
    assert!(limits.max_recommended_watches > 0);
    assert!(limits.max_recommended_watches <= limits.fd_soft_limit);
}

#[test]
fn test_max_recommended_is_half_of_soft_limit() {
    let limits = SystemLimits::detect(Some(1024));
    assert_eq!(limits.max_recommended_watches, limits.fd_soft_limit / 2);
}

#[test]
fn test_watch_warning_below_threshold() {
    let limits = SystemLimits {
        fd_soft_limit: 256,
        max_recommended_watches: 128,
    };
    let metrics = WatcherMetrics {
        directory_count: 50,
        skipped_count: 0,
    };
    assert!(limits.check_watch_warning(&metrics).is_none());
}

#[test]
fn test_watch_warning_above_threshold_no_skipped() {
    let limits = SystemLimits {
        fd_soft_limit: 256,
        max_recommended_watches: 128,
    };
    let metrics = WatcherMetrics {
        directory_count: 200,
        skipped_count: 0,
    };
    let warning = limits.check_watch_warning(&metrics);
    assert!(warning.is_some());
    assert_eq!(warning.unwrap(), "Large repo: refreshing every 5s");
}

#[test]
fn test_watch_warning_with_skipped() {
    let limits = SystemLimits {
        fd_soft_limit: 256,
        max_recommended_watches: 128,
    };
    let metrics = WatcherMetrics {
        directory_count: 200,
        skipped_count: 72,
    };
    let warning = limits.check_watch_warning(&metrics);
    assert!(warning.is_some());
    assert_eq!(warning.unwrap(), "Large repo: refreshing every 5s");
}

#[test]
fn test_diff_thresholds_default() {
    let thresholds = DiffThresholds::default();
    assert_eq!(thresholds.warn_line_count, 50_000);
    assert_eq!(thresholds.warn_file_count, 500);
}

#[test]
fn test_diff_warning_small_diff() {
    let thresholds = DiffThresholds::default();
    let metrics = DiffMetrics {
        total_lines: 100,
        file_count: 5,
    };
    assert!(thresholds.check_diff_warning(&metrics).is_none());
}

#[test]
fn test_diff_warning_large_line_count() {
    let thresholds = DiffThresholds::default();
    let metrics = DiffMetrics {
        total_lines: 60_000,
        file_count: 10,
    };
    let warning = thresholds.check_diff_warning(&metrics);
    assert!(warning.is_some());
    let msg = warning.unwrap();
    assert!(msg.contains("60k"));
    assert!(msg.contains("lines"));
}

#[test]
fn test_diff_warning_many_files() {
    let thresholds = DiffThresholds::default();
    let metrics = DiffMetrics {
        total_lines: 1000,
        file_count: 600,
    };
    let warning = thresholds.check_diff_warning(&metrics);
    assert!(warning.is_some());
    let msg = warning.unwrap();
    assert!(msg.contains("600"));
    assert!(msg.contains("files"));
}

#[test]
fn test_diff_warning_line_count_takes_precedence() {
    let thresholds = DiffThresholds::default();
    let metrics = DiffMetrics {
        total_lines: 60_000,
        file_count: 600,
    };
    let warning = thresholds.check_diff_warning(&metrics);
    assert!(warning.is_some());
    // Line count warning should take precedence
    assert!(warning.unwrap().contains("lines"));
}
