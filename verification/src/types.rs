use vstd::prelude::*;

use crate::text::str_eq;

verus! {

/// How one dataset directory is processed: `Single` picks the newest
/// stable input and maintains one artifact, `Multi` mirrors every
/// input file to its own artifact.
#[derive(Clone, Copy, Debug, PartialEq, Eq, Structural)]
pub enum RunMode {
    Single,
    Multi,
}

/// Identity of one input file at one instant: path, size, modification
/// time in Unix milliseconds, and a quick content hash over the head
/// and tail windows of the file. Equality of the three non-path fields
/// is treated as content equality, except that the sentinel hash "ERR"
/// never equals anything.
#[derive(Clone, Debug)]
pub struct FileStamp {
    pub path: String,
    pub size: u64,
    pub mtime_unix_ms: i64,
    pub quick_hash: String,
}

/// The persisted manifest for one (dataset, mode): the stamps of every
/// input seen by the last recorded run, keyed by path.
#[derive(Clone, Debug)]
pub struct CacheMeta {
    pub dataset: String,
    pub mode: RunMode,
    pub stamps: Vec<FileStamp>,
}

/// The inputs chosen for one run of one (dataset, mode).
#[derive(Clone, Debug)]
pub struct RunPlan {
    pub dataset: String,
    pub mode: RunMode,
    pub files: Vec<String>,
}

impl FileStamp {
    /// The quick hash could not be computed; such a stamp never
    /// matches anything and always forces a rebuild.
    pub open spec fn hash_unknown(self) -> bool {
        self.quick_hash@ == "ERR"@
    }
}

/// No two stamps share a path: the list is a mapping keyed by path.
pub open spec fn stamps_unique(stamps: Seq<FileStamp>) -> bool {
    forall|i: int, j: int|
        0 <= i < j < stamps.len() ==> stamps[i].path@ != stamps[j].path@
}

/// The first stamp with the given path, if any.
pub open spec fn lookup_stamp(stamps: Seq<FileStamp>, path: Seq<char>) -> Option<FileStamp>
    decreases stamps.len(),
{
    if stamps.len() == 0 {
        None
    } else if stamps[0].path@ == path {
        Some(stamps[0])
    } else {
        lookup_stamp(stamps.drop_first(), path)
    }
}

/// Whether some stamp in the list carries the given path.
pub open spec fn has_path(stamps: Seq<FileStamp>, path: Seq<char>) -> bool {
    lookup_stamp(stamps, path) is Some
}

/// A path is absent exactly when no stamp carries it.
pub proof fn lemma_lookup_none(stamps: Seq<FileStamp>, path: Seq<char>)
    ensures
        (lookup_stamp(stamps, path) is None) <==> (forall|j: int|
            0 <= j < stamps.len() ==> (#[trigger] stamps[j]).path@ != path),
    decreases stamps.len(),
{
    if stamps.len() > 0 {
        let t = stamps.drop_first();
        lemma_lookup_none(t, path);
        assert(forall|j: int| 0 <= j < t.len() ==> t[j] == stamps[j + 1]);
        if stamps[0].path@ != path && (lookup_stamp(t, path) is None) {
            assert(forall|j: int|
                1 <= j < stamps.len() ==> (#[trigger] stamps[j]).path@ == t[j - 1].path@);
        }
    }
}

impl CacheMeta {
    /// Well-formed manifest: stamps form a mapping with unique keys.
    pub open spec fn wf(self) -> bool {
        stamps_unique(self.stamps@)
    }
}

/// Find the first stamp with the given path.
pub fn find_stamp<'a>(stamps: &'a Vec<FileStamp>, path: &str) -> (r: Option<&'a FileStamp>)
    ensures
        match r {
            Some(st) => lookup_stamp(stamps@, path@) == Some(*st),
            None => lookup_stamp(stamps@, path@) is None,
        },
{
    let n: usize = stamps.len();
    let mut i: usize = 0;
    proof {
        assert(stamps@.skip(0) =~= stamps@);
    }
    while i < n
        invariant
            n == stamps@.len(),
            i <= n,
            lookup_stamp(stamps@, path@) == lookup_stamp(stamps@.skip(i as int), path@),
        decreases n - i,
    {
        proof {
            assert(stamps@.skip(i as int)[0] == stamps@[i as int]);
        }
        if str_eq(stamps[i].path.as_str(), path) {
            return Some(&stamps[i]);
        }
        proof {
            assert(stamps@.skip(i as int).drop_first() =~= stamps@.skip(i + 1));
        }
        i += 1;
    }
    proof {
        assert(stamps@.skip(n as int) =~= Seq::<FileStamp>::empty());
    }
    None
}

} // verus!
