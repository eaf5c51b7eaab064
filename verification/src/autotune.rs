use vstd::prelude::*;

use crate::hw::{DiskKind, HwInfo};

verus! {

/// The scheduler's advice for a Multi run: how many extraction workers
/// to run in parallel, and the engine thread budget of each.
#[derive(Clone, Copy, Debug, PartialEq, Eq, Structural)]
pub struct MultiTune {
    pub workers: usize,
    pub duckdb_threads_per_job: usize,
}

/// Engine thread budget for the one job of a Single run:
/// 1 under 4 GiB of RAM, up to 2 under 8 GiB, up to 4 on an SSD with
/// 8 GiB or more, up to 2 otherwise — never more than the core count,
/// never less than 1.
pub open spec fn spec_tune_single(hw: HwInfo) -> int {
    let cores: int = if hw.logical_cpus >= 1 {
        hw.logical_cpus as int
    } else {
        1
    };
    if hw.total_ram_mb < 4096 {
        1
    } else if hw.total_ram_mb < 8192 {
        if 2 <= cores {
            2
        } else {
            cores
        }
    } else {
        let cap: int = if hw.disk_kind == DiskKind::Ssd {
            4
        } else {
            2
        };
        if cap <= cores {
            cap
        } else {
            cores
        }
    }
}

/// Worker count for a Multi run before overrides: half the cores on an
/// SSD (at least 2), a third otherwise (at least 1), capped by a RAM
/// tier and clamped to `[1, file_count]`.
pub open spec fn spec_tune_multi_workers(hw: HwInfo, files: int) -> int {
    let cores: int = if hw.logical_cpus >= 1 {
        hw.logical_cpus as int
    } else {
        1
    };
    let base: int = if hw.disk_kind == DiskKind::Ssd {
        if cores / 2 >= 2 {
            cores / 2
        } else {
            2
        }
    } else {
        if cores / 3 >= 1 {
            cores / 3
        } else {
            1
        }
    };
    let ram_cap: int = if hw.total_ram_mb < 4096 {
        1
    } else if hw.total_ram_mb < 8192 {
        2
    } else if hw.total_ram_mb < 16384 {
        4
    } else {
        8
    };
    let files_floor: int = if files >= 1 {
        files
    } else {
        1
    };
    let capped: int = if base <= ram_cap {
        base
    } else {
        ram_cap
    };
    let clamped: int = if capped <= files_floor {
        capped
    } else {
        files_floor
    };
    if clamped >= 1 {
        clamped
    } else {
        1
    }
}

/// Engine threads per worker for a Multi run: 1 when 6 or more workers
/// run, up to 2 when 3 or more run, else the Single-run budget.
pub open spec fn spec_tune_multi_threads(hw: HwInfo, files: int) -> int {
    let cores: int = if hw.logical_cpus >= 1 {
        hw.logical_cpus as int
    } else {
        1
    };
    let workers = spec_tune_multi_workers(hw, files);
    let t: int = if workers >= 6 {
        1
    } else if workers >= 3 {
        if 2 <= cores {
            2
        } else {
            cores
        }
    } else {
        spec_tune_single(hw)
    };
    if t >= 1 {
        t
    } else {
        1
    }
}

/// Thread budget for the one job of a Single run.
pub fn auto_tune_single(hw: &HwInfo) -> (t: usize)
    ensures
        t == spec_tune_single(*hw),
        1 <= t <= 4,
{
    let cores: usize = if hw.logical_cpus >= 1 {
        hw.logical_cpus
    } else {
        1
    };
    if hw.total_ram_mb < 4096 {
        1
    } else if hw.total_ram_mb < 8192 {
        if 2 <= cores {
            2
        } else {
            cores
        }
    } else {
        let cap: usize = if hw.disk_kind == DiskKind::Ssd {
            4
        } else {
            2
        };
        if cap <= cores {
            cap
        } else {
            cores
        }
    }
}

/// Worker count and per-worker engine threads for a Multi run over
/// `files` changed inputs.
pub fn auto_tune_multi(hw: &HwInfo, files: usize) -> (t: MultiTune)
    ensures
        t.workers == spec_tune_multi_workers(*hw, files as int),
        t.duckdb_threads_per_job == spec_tune_multi_threads(*hw, files as int),
        1 <= t.workers <= 8,
        1 <= t.duckdb_threads_per_job <= 4,
{
    let cores: usize = if hw.logical_cpus >= 1 {
        hw.logical_cpus
    } else {
        1
    };
    let base: usize = if hw.disk_kind == DiskKind::Ssd {
        if cores / 2 >= 2 {
            cores / 2
        } else {
            2
        }
    } else {
        if cores / 3 >= 1 {
            cores / 3
        } else {
            1
        }
    };
    let ram_cap: usize = if hw.total_ram_mb < 4096 {
        1
    } else if hw.total_ram_mb < 8192 {
        2
    } else if hw.total_ram_mb < 16384 {
        4
    } else {
        8
    };
    let files_floor: usize = if files >= 1 {
        files
    } else {
        1
    };
    let capped: usize = if base <= ram_cap {
        base
    } else {
        ram_cap
    };
    let workers: usize = if capped <= files_floor {
        capped
    } else {
        files_floor
    };
    let workers: usize = if workers >= 1 {
        workers
    } else {
        1
    };
    let threads: usize = if workers >= 6 {
        1
    } else if workers >= 3 {
        if 2 <= cores {
            2
        } else {
            cores
        }
    } else {
        auto_tune_single(hw)
    };
    let threads: usize = if threads >= 1 {
        threads
    } else {
        1
    };
    MultiTune { workers, duckdb_threads_per_job: threads }
}

} // verus!
