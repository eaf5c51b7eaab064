use vstd::prelude::*;

use crate::text::str_eq;
use crate::types::{lookup_stamp, stamps_unique, CacheMeta, FileStamp, RunMode, find_stamp};

verus! {

/// The stamps recorded by the previous run, empty when there was none.
pub open spec fn prev_stamps(prev: Option<CacheMeta>) -> Seq<FileStamp> {
    match prev {
        None => Seq::<FileStamp>::empty(),
        Some(m) => m.stamps@,
    }
}

/// A current stamp must be rebuilt: the previous manifest has no entry
/// for its path, or any of size, mtime or quick hash differs, or the
/// quick hash is the unknown sentinel (which never counts as equal).
pub open spec fn stamp_changed(prev: Seq<FileStamp>, st: FileStamp) -> bool {
    match lookup_stamp(prev, st.path@) {
        None => true,
        Some(old) => old.size != st.size || old.mtime_unix_ms != st.mtime_unix_ms
            || old.quick_hash@ != st.quick_hash@ || st.hash_unknown(),
    }
}

/// The changed entries of a current stamp list, in input order.
pub open spec fn spec_changed_list(prev: Seq<FileStamp>, cur: Seq<FileStamp>) -> Seq<FileStamp>
    decreases cur.len(),
{
    if cur.len() == 0 {
        Seq::<FileStamp>::empty()
    } else {
        let rest = spec_changed_list(prev, cur.drop_last());
        if stamp_changed(prev, cur.last()) {
            rest.push(cur.last())
        } else {
            rest
        }
    }
}

impl FileStamp {
    /// A verified copy: every field of the result equals the original.
    pub fn dup(&self) -> (r: FileStamp)
        ensures
            r == *self,
    {
        FileStamp {
            path: self.path.clone(),
            size: self.size,
            mtime_unix_ms: self.mtime_unix_ms,
            quick_hash: self.quick_hash.clone(),
        }
    }
}

/// Diff the current stamp list against the previous manifest.
/// The next manifest holds exactly the current stamps, in the given
/// order — so a scan list with unique paths yields a well-formed
/// manifest, and a sorted one keeps its lexicographic key order. An
/// entry is reported as changed exactly when `stamp_changed` holds of
/// it.
pub fn diff_files(
    prev: Option<CacheMeta>,
    dataset: &str,
    mode: RunMode,
    current: &Vec<FileStamp>,
) -> (r: (CacheMeta, Vec<FileStamp>))
    ensures
        r.0.dataset@ == dataset@,
        r.0.mode == mode,
        r.0.stamps@ == current@,
        stamps_unique(current@) ==> r.0.wf(),
        r.1@ == spec_changed_list(prev_stamps(prev), current@),
{
    let prev_list: Vec<FileStamp> = match prev {
        None => Vec::new(),
        Some(m) => m.stamps,
    };
    let n: usize = current.len();
    let mut next_stamps: Vec<FileStamp> = Vec::new();
    let mut changed: Vec<FileStamp> = Vec::new();
    let mut i: usize = 0;
    while i < n
        invariant
            n == current@.len(),
            i <= n,
            prev_list@ == prev_stamps(prev),
            next_stamps@ =~= current@.subrange(0, i as int),
            changed@ == spec_changed_list(prev_list@, current@.subrange(0, i as int)),
        decreases n - i,
    {
        let st = &current[i];
        next_stamps.push(st.dup());
        let is_changed: bool = match find_stamp(&prev_list, st.path.as_str()) {
            None => true,
            Some(old) => {
                old.size != st.size || old.mtime_unix_ms != st.mtime_unix_ms
                    || !str_eq(old.quick_hash.as_str(), st.quick_hash.as_str())
                    || str_eq(st.quick_hash.as_str(), "ERR")
            },
        };
        proof {
            assert(is_changed == stamp_changed(prev_list@, current@[i as int]));
            let sub1 = current@.subrange(0, i + 1);
            assert(sub1.drop_last() =~= current@.subrange(0, i as int));
            assert(sub1.last() == current@[i as int]);
        }
        if is_changed {
            changed.push(st.dup());
        }
        i += 1;
    }
    proof {
        assert(current@.subrange(0, n as int) =~= current@);
    }
    let next = CacheMeta { dataset: crate::text::to_owned_string(dataset), mode, stamps: next_stamps };
    (next, changed)
}

/// The manifest file of a (dataset, mode) under the cache root, with
/// forward-slash separators.
pub fn cache_file_path(cache_root: &str, dataset: &str, mode: RunMode) -> (r: String)
    ensures
        mode == RunMode::Single ==> r@ == cache_root@ + seq!['/'] + dataset@
            + "/single_cache.json"@,
        mode == RunMode::Multi ==> r@ == cache_root@ + seq!['/'] + dataset@
            + "/multi_cache.json"@,
{
    let mut out = crate::text::to_owned_string(cache_root);
    crate::text::push_char(&mut out, '/');
    out.append(dataset);
    match mode {
        RunMode::Single => out.append("/single_cache.json"),
        RunMode::Multi => out.append("/multi_cache.json"),
    }
    out
}

/// The per-mode output directory of a dataset under the cache root.
pub fn mode_dir(cache_root: &str, dataset: &str, mode: RunMode) -> (r: String)
    ensures
        mode == RunMode::Single ==> r@ == cache_root@ + seq!['/'] + dataset@ + "/single"@,
        mode == RunMode::Multi ==> r@ == cache_root@ + seq!['/'] + dataset@ + "/multi"@,
{
    let mut out = crate::text::to_owned_string(cache_root);
    crate::text::push_char(&mut out, '/');
    out.append(dataset);
    match mode {
        RunMode::Single => out.append("/single"),
        RunMode::Multi => out.append("/multi"),
    }
    out
}

/// A file or subdirectory under a directory, joined with a forward
/// slash.
pub fn join_path(dir: &str, name: &str) -> (r: String)
    ensures
        r@ == dir@ + seq!['/'] + name@,
{
    let mut out = crate::text::to_owned_string(dir);
    crate::text::push_char(&mut out, '/');
    out.append(name);
    out
}

/// Change detection is exact: a changed list holds changed current
/// entries only, and every changed current entry stands in it.
/// Changing any of size, mtime or quick hash of one input, or adding a
/// new input, makes exactly that entry changed.
pub proof fn lemma_changed_membership(prev: Seq<FileStamp>, cur: Seq<FileStamp>)
    ensures
        forall|j: int|
            0 <= j < spec_changed_list(prev, cur).len() ==> cur.contains(
                #[trigger] spec_changed_list(prev, cur)[j],
            ) && stamp_changed(prev, spec_changed_list(prev, cur)[j]),
        forall|i: int|
            0 <= i < cur.len() && stamp_changed(prev, #[trigger] cur[i]) ==> spec_changed_list(
                prev,
                cur,
            ).contains(cur[i]),
    decreases cur.len(),
{
    if cur.len() > 0 {
        let head = cur.drop_last();
        lemma_changed_membership(prev, head);
        let full = spec_changed_list(prev, cur);
        let rest = spec_changed_list(prev, head);
        assert forall|j: int| 0 <= j < full.len() implies cur.contains(#[trigger] full[j])
            && stamp_changed(prev, full[j]) by {
            if j < rest.len() {
                assert(head.contains(rest[j]));
                let k = choose|k: int| 0 <= k < head.len() && head[k] == rest[j];
                assert(cur[k] == full[j]);
            } else {
                assert(full[j] == cur.last());
                assert(cur[cur.len() - 1] == cur.last());
            }
        }
        assert forall|i: int|
            0 <= i < cur.len() && stamp_changed(prev, #[trigger] cur[i]) implies full.contains(
            cur[i],
        ) by {
            if i < cur.len() - 1 {
                assert(head[i] == cur[i]);
                assert(rest.contains(cur[i]));
                let k = choose|k: int| 0 <= k < rest.len() && rest[k] == cur[i];
                assert(full[k] == cur[i]);
            } else {
                if stamp_changed(prev, cur.last()) {
                    assert(full[full.len() - 1] == cur[i]);
                }
            }
        }
    }
}

/// In a list with unique paths, looking a member's path up finds that
/// member itself.
pub proof fn lemma_lookup_member(s: Seq<FileStamp>, st: FileStamp)
    requires
        stamps_unique(s),
        s.contains(st),
    ensures
        lookup_stamp(s, st.path@) == Some(st),
    decreases s.len(),
{
    let i = choose|i: int| 0 <= i < s.len() && s[i] == st;
    if s[0].path@ == st.path@ {
        assert(s[0] == st) by {
            if i != 0 {
                assert(s[0].path@ != s[i].path@);
            }
        }
    } else {
        let t = s.drop_first();
        assert(i != 0);
        assert(t[i - 1] == st);
        assert(t.contains(st));
        assert(stamps_unique(t)) by {
            assert(forall|a: int, b: int|
                0 <= a < b < t.len() ==> t[a] == s[a + 1] && t[b] == s[b + 1]);
        }
        lemma_lookup_member(t, st);
    }
}

/// If no current entry counts as changed against the previous stamps,
/// the changed list is empty.
pub proof fn lemma_no_change_no_rebuild(prev: Seq<FileStamp>, cur: Seq<FileStamp>)
    requires
        forall|i: int| 0 <= i < cur.len() ==> !stamp_changed(prev, #[trigger] cur[i]),
    ensures
        spec_changed_list(prev, cur) == Seq::<FileStamp>::empty(),
    decreases cur.len(),
{
    if cur.len() > 0 {
        let head = cur.drop_last();
        assert(forall|i: int| 0 <= i < head.len() ==> head[i] == cur[i]);
        lemma_no_change_no_rebuild(prev, head);
        assert(cur[cur.len() - 1] == cur.last());
    }
}

/// Idempotence of change detection: diffing a stamp list against the
/// manifest that records exactly that list reports nothing changed, as
/// long as every quick hash is known. (A stamp whose hash reads failed
/// carries the unknown sentinel and is rebuilt on every run, by design.)
pub proof fn lemma_diff_idempotent(cur: Seq<FileStamp>)
    requires
        stamps_unique(cur),
        forall|i: int| 0 <= i < cur.len() ==> !(#[trigger] cur[i]).hash_unknown(),
    ensures
        spec_changed_list(cur, cur) == Seq::<FileStamp>::empty(),
{
    assert forall|i: int| 0 <= i < cur.len() implies !stamp_changed(cur, #[trigger] cur[i]) by {
        lemma_lookup_member(cur, cur[i]);
    }
    lemma_no_change_no_rebuild(cur, cur);
}

} // verus!
