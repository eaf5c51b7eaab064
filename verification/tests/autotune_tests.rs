use excel_to_parquet::autotune::{auto_tune_multi, auto_tune_single};
use excel_to_parquet::hw::{detect_hw, DiskKind, HwInfo};

fn hw(cores: usize, ram_mb: u64, disk: DiskKind) -> HwInfo {
    detect_hw(cores, ram_mb, disk)
}

#[test]
fn single_low_ram_is_serial() {
    assert_eq!(auto_tune_single(&hw(8, 2048, DiskKind::Ssd)), 1);
    assert_eq!(auto_tune_single(&hw(1, 1024, DiskKind::Hdd)), 1);
}

#[test]
fn single_mid_ram_two_threads() {
    assert_eq!(auto_tune_single(&hw(8, 6000, DiskKind::Ssd)), 2);
    assert_eq!(auto_tune_single(&hw(1, 6000, DiskKind::Ssd)), 1);
}

#[test]
fn single_high_ram_ssd_four_threads() {
    assert_eq!(auto_tune_single(&hw(8, 16384, DiskKind::Ssd)), 4);
    assert_eq!(auto_tune_single(&hw(2, 16384, DiskKind::Ssd)), 2);
    assert_eq!(auto_tune_single(&hw(8, 16384, DiskKind::Hdd)), 2);
    assert_eq!(auto_tune_single(&hw(8, 16384, DiskKind::Unknown)), 2);
}

#[test]
fn multi_workers_capped_by_ram_tier() {
    let t = auto_tune_multi(&hw(16, 2048, DiskKind::Ssd), 10);
    assert_eq!(t.workers, 1);
    let t = auto_tune_multi(&hw(16, 6000, DiskKind::Ssd), 10);
    assert_eq!(t.workers, 2);
    let t = auto_tune_multi(&hw(16, 12000, DiskKind::Ssd), 10);
    assert_eq!(t.workers, 4);
    let t = auto_tune_multi(&hw(16, 32768, DiskKind::Ssd), 10);
    assert_eq!(t.workers, 8);
}

#[test]
fn multi_workers_clamped_to_file_count() {
    let t = auto_tune_multi(&hw(16, 32768, DiskKind::Ssd), 3);
    assert_eq!(t.workers, 3);
    let t = auto_tune_multi(&hw(16, 32768, DiskKind::Ssd), 0);
    assert_eq!(t.workers, 1);
}

#[test]
fn multi_threads_depend_on_worker_count() {
    // Eight workers run serial engines.
    let t = auto_tune_multi(&hw(16, 32768, DiskKind::Ssd), 10);
    assert_eq!(t.workers, 8);
    assert_eq!(t.duckdb_threads_per_job, 1);
    // Four workers get up to two threads each.
    let t = auto_tune_multi(&hw(16, 12000, DiskKind::Ssd), 10);
    assert_eq!(t.workers, 4);
    assert_eq!(t.duckdb_threads_per_job, 2);
    // Below three workers the Single budget applies.
    let t = auto_tune_multi(&hw(4, 16384, DiskKind::Ssd), 2);
    assert_eq!(t.workers, 2);
    assert_eq!(t.duckdb_threads_per_job, 4);
}

#[test]
fn multi_hdd_uses_third_of_cores() {
    let t = auto_tune_multi(&hw(12, 32768, DiskKind::Hdd), 10);
    assert_eq!(t.workers, 4);
    let t = auto_tune_multi(&hw(2, 32768, DiskKind::Unknown), 10);
    assert_eq!(t.workers, 1);
}
