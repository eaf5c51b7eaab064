use vstd::prelude::*;

use crate::text::push_char;

verus! {

/// The class of the drive that holds the cache root, as probed by the
/// platform layer. Probing itself is a collaborator; the scheduler only
/// reads the classification.
#[derive(Clone, Copy, Debug, PartialEq, Eq, Structural)]
pub enum DiskKind {
    Hdd,
    Ssd,
    Unknown,
}

/// Observed hardware: logical CPU count, total RAM in megabytes, and
/// the disk class of the cache root.
#[derive(Clone, Copy, Debug, PartialEq, Eq, Structural)]
pub struct HwInfo {
    pub logical_cpus: usize,
    pub total_ram_mb: u64,
    pub disk_kind: DiskKind,
}

/// A path names a drive when a colon follows its first character and
/// a separator follows the colon; the drive root is that letter,
/// uppercased, with `:\` appended. Elsewhere the disk class stays
/// unknown.
pub fn drive_root(p: &str) -> (r: Option<String>)
    ensures
        match r {
            Some(root) => {
                &&& p@.len() >= 3
                &&& p@[1] == ':'
                &&& (p@[2] == '\\' || p@[2] == '/')
                &&& root@.len() == 3
                &&& root@[0] == (if 97 <= p@[0] as u32 <= 122 {
                    ((p@[0] as u8) - 32) as char
                } else {
                    p@[0]
                })
                &&& root@[1] == ':'
                &&& root@[2] == '\\'
            },
            None => p@.len() < 3 || p@[1] != ':' || (p@[2] != '\\' && p@[2] != '/'),
        },
{
    let n: usize = p.unicode_len();
    if n < 3 {
        return None;
    }
    let c1 = p.get_char(1);
    let c2 = p.get_char(2);
    if c1 != ':' || (c2 != '\\' && c2 != '/') {
        return None;
    }
    let c0 = p.get_char(0);
    let u: u32 = c0 as u32;
    let up: char = if 97 <= u && u <= 122 {
        ((u - 32) as u8) as char
    } else {
        c0
    };
    let mut out = String::new();
    push_char(&mut out, up);
    push_char(&mut out, ':');
    push_char(&mut out, '\\');
    Some(out)
}

/// Assemble the hardware description from the probed values. The
/// probes (CPU count, RAM, disk class) are platform I/O and live with
/// the caller; scheduling decisions are taken from this record alone.
pub fn detect_hw(logical_cpus: usize, total_ram_mb: u64, disk_kind: DiskKind) -> (hw: HwInfo)
    ensures
        hw == (HwInfo { logical_cpus, total_ram_mb, disk_kind }),
{
    HwInfo { logical_cpus, total_ram_mb, disk_kind }
}

} // verus!
