use vstd::prelude::*;

use crate::cache::{spec_changed_list, stamp_changed};
use crate::index::PathMap;
use crate::types::{has_path, stamps_unique, CacheMeta, FileStamp, RunMode, find_stamp};

verus! {

/// The heavy-first policy over stamps sorted by size descending:
/// serialize the largest input iff it is at least 30 MiB, or at least
/// one and a half times the second largest (the second being nonempty).
pub open spec fn spec_heavy_first(sorted_desc: Seq<FileStamp>) -> bool {
    sorted_desc.len() >= 2 && (sorted_desc[0].size >= 31457280 || (sorted_desc[1].size > 0 && 2
        * (sorted_desc[0].size as int) >= 3 * (sorted_desc[1].size as int)))
}

/// Decide heavy-first over the size-sorted changed list.
pub fn should_heavy_first(sorted_desc: &Vec<FileStamp>) -> (r: bool)
    ensures
        r == spec_heavy_first(sorted_desc@),
{
    if sorted_desc.len() < 2 {
        return false;
    }
    let a: u64 = sorted_desc[0].size;
    let b: u64 = sorted_desc[1].size;
    a >= 31457280 || (b > 0 && 2 * (a as u128) >= 3 * (b as u128))
}

/// Stamps in non-increasing size order.
pub open spec fn sizes_sorted_desc(s: Seq<FileStamp>) -> bool {
    forall|i: int, j: int| 0 <= i < j < s.len() ==> s[i].size >= s[j].size
}

/// Sort the changed stamps by size, largest first, keeping exactly the
/// same entries.
pub fn sort_stamps_desc(v: &Vec<FileStamp>) -> (out: Vec<FileStamp>)
    ensures
        sizes_sorted_desc(out@),
        out@.to_multiset() == v@.to_multiset(),
        out@.len() == v@.len(),
{
    let n: usize = v.len();
    let mut out: Vec<FileStamp> = Vec::new();
    let mut i: usize = 0;
    proof {
        assert(v@.take(0) =~= out@);
    }
    while i < n
        invariant
            n == v@.len(),
            i <= n,
            out@.len() == i,
            sizes_sorted_desc(out@),
            out@.to_multiset() == v@.take(i as int).to_multiset(),
        decreases n - i,
    {
        let x = v[i].dup();
        let m: usize = out.len();
        let mut k: usize = 0;
        while k < m && out[k].size >= x.size
            invariant
                m == out@.len(),
                k <= m,
                forall|j: int| 0 <= j < k ==> out@[j].size >= x.size,
            decreases m - k,
        {
            k += 1;
        }
        let ghost prev = out@;
        out.insert(k, x);
        proof {
            prev.insert_ensures(k as int, x);
            assert forall|p: int, q: int| 0 <= p < q < out@.len() implies out@[p].size
                >= out@[q].size by {
                if q < k {
                } else if p > k {
                } else if p < k && q == k {
                } else if p == k {
                }
            }
            vstd::seq_lib::to_multiset_insert(prev, k as int, x);
            let sub1 = v@.take(i + 1);
            assert(sub1.drop_last() =~= v@.take(i as int));
            assert(sub1 =~= v@.take(i as int).push(v@[i as int]));
            vstd::seq_lib::to_multiset_build(v@.take(i as int), v@[i as int]);
        }
        i += 1;
    }
    proof {
        assert(v@.take(n as int) =~= v@);
        vstd::seq_lib::to_multiset_len(out@);
        vstd::seq_lib::to_multiset_len(v@);
    }
    out
}

/// The worker count of the parallel phase: the override or the tuned
/// value, at least 1, and no more than the number of changed files.
pub open spec fn spec_workers(tuned: int, override_workers: Option<usize>, changed: int) -> int {
    let base: int = match override_workers {
        Some(w) => w as int,
        None => tuned,
    };
    let floored: int = if base >= 1 {
        base
    } else {
        1
    };
    if floored <= changed {
        floored
    } else {
        changed
    }
}

/// Pick the worker count for the parallel phase.
pub fn workers_for(tuned: usize, override_workers: Option<usize>, changed: usize) -> (w: usize)
    ensures
        w == spec_workers(tuned as int, override_workers, changed as int),
{
    let base: usize = match override_workers {
        Some(w) => w,
        None => tuned,
    };
    let floored: usize = if base >= 1 {
        base
    } else {
        1
    };
    if floored <= changed {
        floored
    } else {
        changed
    }
}

/// The previous stamps whose paths no longer stand in the current
/// list, in manifest order: their inputs were deleted upstream.
pub open spec fn spec_deleted(prev: Seq<FileStamp>, cur: Seq<FileStamp>) -> Seq<FileStamp>
    decreases prev.len(),
{
    if prev.len() == 0 {
        Seq::<FileStamp>::empty()
    } else {
        let rest = spec_deleted(prev.drop_last(), cur);
        if !has_path(cur, prev.last().path@) {
            rest.push(prev.last())
        } else {
            rest
        }
    }
}

/// The paths of the previous manifest whose inputs disappeared.
pub fn multi_deletions(prev: &CacheMeta, current: &Vec<FileStamp>) -> (out: Vec<String>)
    ensures
        out@.len() == spec_deleted(prev.stamps@, current@).len(),
        forall|j: int|
            0 <= j < out@.len() ==> out@[j]@ == spec_deleted(prev.stamps@, current@)[j].path@,
{
    let n: usize = prev.stamps.len();
    let mut out: Vec<String> = Vec::new();
    let mut i: usize = 0;
    while i < n
        invariant
            n == prev.stamps@.len(),
            i <= n,
            out@.len() == spec_deleted(prev.stamps@.take(i as int), current@).len(),
            forall|j: int|
                0 <= j < out@.len() ==> out@[j]@ == spec_deleted(
                    prev.stamps@.take(i as int),
                    current@,
                )[j].path@,
        decreases n - i,
    {
        let missing: bool = match find_stamp(current, prev.stamps[i].path.as_str()) {
            Some(_) => false,
            None => true,
        };
        proof {
            let sub1 = prev.stamps@.take(i + 1);
            assert(sub1.drop_last() =~= prev.stamps@.take(i as int));
            assert(sub1.last() == prev.stamps@[i as int]);
        }
        if missing {
            out.push(prev.stamps[i].path.clone());
        }
        i += 1;
    }
    proof {
        assert(prev.stamps@.take(n as int) =~= prev.stamps@);
    }
    out
}

/// Unmap every given path, leaving all other paths untouched. This is
/// the map half of deletion handling: each removed input loses exactly
/// its own entry.
pub fn remove_keys(map: &mut PathMap, keys: &Vec<String>)
    requires
        old(map).wf(),
    ensures
        final(map).wf(),
        forall|q: Seq<char>|
            final(map).spec_map_get(q) == if exists|j: int|
                0 <= j < keys@.len() && (#[trigger] keys@[j])@ == q {
                None::<Seq<char>>
            } else {
                old(map).spec_map_get(q)
            },
{
    let n: usize = keys.len();
    let mut i: usize = 0;
    while i < n
        invariant
            n == keys@.len(),
            i <= n,
            map.wf(),
            forall|q: Seq<char>|
                map.spec_map_get(q) == if exists|j: int|
                    0 <= j < i && (#[trigger] keys@[j])@ == q {
                    None::<Seq<char>>
                } else {
                    old(map).spec_map_get(q)
                },
        decreases n - i,
    {
        map.remove(keys[i].as_str());
        i += 1;
    }
}

/// Forcing a rebuild: when the diff reports nothing changed but the
/// persisted outputs fail the integrity gate, every current input is
/// rebuilt; otherwise exactly the changed ones are.
pub open spec fn spec_rebuild_list(
    changed: Seq<FileStamp>,
    outputs_ok: bool,
    stamps: Seq<FileStamp>,
) -> Seq<FileStamp> {
    if changed.len() == 0 && !outputs_ok {
        stamps
    } else {
        changed
    }
}

/// Decide which inputs to rebuild after the output integrity gate.
pub fn decide_rebuild(changed: Vec<FileStamp>, outputs_ok: bool, stamps: &Vec<FileStamp>) -> (r:
    Vec<FileStamp>)
    ensures
        r@ == spec_rebuild_list(changed@, outputs_ok, stamps@),
{
    if changed.len() == 0 && !outputs_ok {
        let n: usize = stamps.len();
        let mut out: Vec<FileStamp> = Vec::new();
        let mut i: usize = 0;
        while i < n
            invariant
                n == stamps@.len(),
                i <= n,
                out@ =~= stamps@.take(i as int),
            decreases n - i,
        {
            out.push(stamps[i].dup());
            i += 1;
        }
        proof {
            assert(stamps@.take(n as int) =~= stamps@);
        }
        out
    } else {
        changed
    }
}

/// The Parquet names the integrity test demands: one per current
/// input, each found in the map. `None` when the map is empty or any
/// input has no entry; whether each named file is still on disk is
/// left to the caller, which looks each returned name up there.
pub fn required_targets(map: &PathMap, stamps: &Vec<FileStamp>) -> (r: Option<Vec<String>>)
    ensures
        match r {
            Some(names) => {
                &&& map.entries@.len() > 0
                &&& names@.len() == stamps@.len()
                &&& forall|i: int|
                    0 <= i < stamps@.len() ==> map.spec_map_get(#[trigger] stamps@[i].path@)
                        == Some(names@[i]@)
            },
            None => map.entries@.len() == 0 || exists|i: int|
                0 <= i < stamps@.len() && map.spec_map_get(#[trigger] stamps@[i].path@) is None,
        },
{
    if map.len() == 0 {
        return None;
    }
    let n: usize = stamps.len();
    let mut names: Vec<String> = Vec::new();
    let mut i: usize = 0;
    while i < n
        invariant
            n == stamps@.len(),
            i <= n,
            map.entries@.len() > 0,
            names@.len() == i,
            forall|j: int|
                0 <= j < i ==> map.spec_map_get(#[trigger] stamps@[j].path@) == Some(
                    names@[j]@,
                ),
        decreases n - i,
    {
        match map.get(stamps[i].path.as_str()) {
            Some(name) => {
                names.push(name.clone());
            },
            None => {
                return None;
            },
        }
        i += 1;
    }
    Some(names)
}

/// The first successful result for a path, if any.
pub open spec fn spec_ok_lookup(results: Seq<(String, Result<String, String>)>, q: Seq<char>)
    -> Option<Seq<char>>
    decreases results.len(),
{
    if results.len() == 0 {
        None
    } else if results[0].0@ == q && results[0].1 is Ok {
        Some(results[0].1->Ok_0@)
    } else {
        spec_ok_lookup(results.drop_first(), q)
    }
}

/// The failures among the results, in order.
pub open spec fn spec_failures(results: Seq<(String, Result<String, String>)>) -> Seq<
    (String, String),
>
    decreases results.len(),
{
    if results.len() == 0 {
        Seq::<(String, String)>::empty()
    } else {
        let rest = spec_failures(results.drop_last());
        match results.last().1 {
            Ok(_) => rest,
            Err(e) => rest.push((results.last().0, e)),
        }
    }
}

/// How many results succeeded.
pub open spec fn spec_ok_count(results: Seq<(String, Result<String, String>)>) -> int
    decreases results.len(),
{
    if results.len() == 0 {
        0
    } else {
        spec_ok_count(results.drop_last()) + if results.last().1 is Ok {
            1int
        } else {
            0int
        }
    }
}

/// Result keys are pairwise distinct, as they are when each changed
/// input is extracted once.
pub open spec fn result_keys_unique(results: Seq<(String, Result<String, String>)>) -> bool {
    forall|i: int, j: int| 0 <= i < j < results.len() ==> results[i].0@ != results[j].0@
}

/// Merge the extraction results into the persisted map: every success
/// maps its input to the new Parquet name, every other path keeps its
/// old mapping, and the failures come back with their messages, in
/// order.
pub fn apply_results(map: &mut PathMap, results: &Vec<(String, Result<String, String>)>) -> (r: (
    usize,
    Vec<(String, String)>,
))
    requires
        old(map).wf(),
        result_keys_unique(results@),
        results@.len() < usize::MAX,
    ensures
        final(map).wf(),
        forall|q: Seq<char>|
            final(map).spec_map_get(q) == match spec_ok_lookup(results@, q) {
                Some(name) => Some(name),
                None => old(map).spec_map_get(q),
            },
        r.0 == spec_ok_count(results@),
        r.1@.len() == spec_failures(results@).len(),
        forall|j: int|
            0 <= j < r.1@.len() ==> r.1@[j].0@ == spec_failures(results@)[j].0@ && r.1@[j].1@
                == spec_failures(results@)[j].1@,
{
    let n: usize = results.len();
    let mut ok_count: usize = 0;
    let mut failures: Vec<(String, String)> = Vec::new();
    let mut i: usize = 0;
    while i < n
        invariant
            n == results@.len(),
            n < usize::MAX,
            i <= n,
            map.wf(),
            result_keys_unique(results@),
            ok_count == spec_ok_count(results@.take(i as int)),
            ok_count <= i,
            failures@.len() == spec_failures(results@.take(i as int)).len(),
            forall|j: int|
                0 <= j < failures@.len() ==> failures@[j].0@ == spec_failures(
                    results@.take(i as int),
                )[j].0@ && failures@[j].1@ == spec_failures(results@.take(i as int))[j].1@,
            forall|q: Seq<char>|
                map.spec_map_get(q) == match spec_ok_lookup(results@.take(i as int), q) {
                    Some(name) => Some(name),
                    None => old(map).spec_map_get(q),
                },
        decreases n - i,
    {
        proof {
            let sub1 = results@.take(i + 1);
            assert(sub1.drop_last() =~= results@.take(i as int));
            assert(sub1.last() == results@[i as int]);
        }
        match &results[i].1 {
            Ok(name) => {
                let ghost old_map = *map;
                map.insert(results[i].0.clone(), name.clone());
                ok_count += 1;
                proof {
                    lemma_ok_lookup_extend(results@, i as int, *old(map), old_map, *map);
                }
            },
            Err(e) => {
                failures.push((results[i].0.clone(), e.clone()));
                proof {
                    lemma_ok_lookup_extend_err(results@, i as int, *old(map), *map);
                }
            },
        }
        i += 1;
    }
    proof {
        assert(results@.take(n as int) =~= results@);
    }
    (ok_count, failures)
}

proof fn lemma_ok_lookup_prefix(
    results: Seq<(String, Result<String, String>)>,
    i: int,
    q: Seq<char>,
)
    requires
        0 <= i < results.len(),
        results[i].1 is Ok,
        result_keys_unique(results),
    ensures
        spec_ok_lookup(results.take(i + 1), q) == if q == results[i].0@ {
            Some(results[i].1->Ok_0@)
        } else {
            spec_ok_lookup(results.take(i), q)
        },
    decreases i,
{
    let s1 = results.take(i + 1);
    let s0 = results.take(i);
    if i == 0 {
        assert(s1[0] == results[0]);
        assert(s1.drop_first() =~= Seq::<(String, Result<String, String>)>::empty());
        assert(s0 =~= Seq::<(String, Result<String, String>)>::empty());
    } else {
        let t = results.drop_first();
        assert(result_keys_unique(t)) by {
            assert(forall|a: int| 0 <= a < t.len() ==> t[a] == results[a + 1]);
        }
        assert(t[i - 1] == results[i]);
        lemma_ok_lookup_prefix(t, i - 1, q);
        assert(s1[0] == results[0]);
        assert(s0[0] == results[0]);
        assert(s1.drop_first() =~= t.take(i));
        assert(s0.drop_first() =~= t.take(i - 1));
        if results[0].0@ == q && results[0].1 is Ok {
            assert(results[0].0@ != results[i].0@);
        }
    }
}

proof fn lemma_ok_lookup_extend(
    results: Seq<(String, Result<String, String>)>,
    i: int,
    base: PathMap,
    before: PathMap,
    after: PathMap,
)
    requires
        0 <= i < results.len(),
        results[i].1 is Ok,
        result_keys_unique(results),
        forall|q: Seq<char>|
            before.spec_map_get(q) == match spec_ok_lookup(results.take(i), q) {
                Some(name) => Some(name),
                None => base.spec_map_get(q),
            },
        after.spec_map_get(results[i].0@) == Some(results[i].1->Ok_0@),
        forall|q: Seq<char>|
            q != results[i].0@ ==> after.spec_map_get(q) == before.spec_map_get(q),
    ensures
        forall|q: Seq<char>|
            after.spec_map_get(q) == match spec_ok_lookup(results.take(i + 1), q) {
                Some(name) => Some(name),
                None => base.spec_map_get(q),
            },
{
    assert forall|q: Seq<char>| after.spec_map_get(q) == match spec_ok_lookup(
        results.take(i + 1),
        q,
    ) {
        Some(name) => Some(name),
        None => base.spec_map_get(q),
    } by {
        lemma_ok_lookup_prefix(results, i, q);
    }
}

proof fn lemma_ok_lookup_extend_err(
    results: Seq<(String, Result<String, String>)>,
    i: int,
    base: PathMap,
    cur: PathMap,
)
    requires
        0 <= i < results.len(),
        !(results[i].1 is Ok),
        forall|q: Seq<char>|
            cur.spec_map_get(q) == match spec_ok_lookup(results.take(i), q) {
                Some(name) => Some(name),
                None => base.spec_map_get(q),
            },
    ensures
        forall|q: Seq<char>|
            cur.spec_map_get(q) == match spec_ok_lookup(results.take(i + 1), q) {
                Some(name) => Some(name),
                None => base.spec_map_get(q),
            },
{
    assert forall|q: Seq<char>| spec_ok_lookup(results.take(i + 1), q) == spec_ok_lookup(
        results.take(i),
        q,
    ) by {
        lemma_ok_lookup_err_skip(results, i, q);
    }
}

proof fn lemma_ok_lookup_err_skip(
    results: Seq<(String, Result<String, String>)>,
    i: int,
    q: Seq<char>,
)
    requires
        0 <= i < results.len(),
        !(results[i].1 is Ok),
    ensures
        spec_ok_lookup(results.take(i + 1), q) == spec_ok_lookup(results.take(i), q),
    decreases i,
{
    let s1 = results.take(i + 1);
    let s0 = results.take(i);
    if i == 0 {
        assert(s1[0] == results[0]);
        assert(s1.drop_first() =~= Seq::<(String, Result<String, String>)>::empty());
        assert(s0 =~= Seq::<(String, Result<String, String>)>::empty());
    } else {
        let t = results.drop_first();
        assert(t[i - 1] == results[i]);
        lemma_ok_lookup_err_skip(t, i - 1, q);
        assert(s1[0] == results[0]);
        assert(s0[0] == results[0]);
        assert(s1.drop_first() =~= t.take(i));
        assert(s0.drop_first() =~= t.take(i - 1));
    }
}

/// The manifest is written after a run only when every file succeeded
/// or at least one new success exists; an entirely failed run leaves
/// the previous manifest standing.
pub fn should_write_manifest(ok_count: usize, fail_count: usize) -> (r: bool)
    ensures
        r == (fail_count == 0 || ok_count > 0),
{
    fail_count == 0 || ok_count > 0
}

/// The manifest stamps actually recorded: the failed inputs are left
/// out, so that the next run's diff sees them as new and retries them.
pub open spec fn spec_final_stamps(stamps: Seq<FileStamp>, failed: Seq<String>) -> Seq<FileStamp>
    decreases stamps.len(),
{
    if stamps.len() == 0 {
        Seq::<FileStamp>::empty()
    } else {
        let rest = spec_final_stamps(stamps.drop_last(), failed);
        if exists|j: int| 0 <= j < failed.len() && (#[trigger] failed[j])@ == stamps.last().path@ {
            rest
        } else {
            rest.push(stamps.last())
        }
    }
}

/// Drop the failed inputs' stamps from the next manifest.
pub fn finalize_meta(next: CacheMeta, failed: &Vec<String>) -> (r: CacheMeta)
    ensures
        r.dataset@ == next.dataset@,
        r.mode == next.mode,
        r.stamps@ == spec_final_stamps(next.stamps@, failed@),
{
    let n: usize = next.stamps.len();
    let mut stamps: Vec<FileStamp> = Vec::new();
    let mut i: usize = 0;
    while i < n
        invariant
            n == next.stamps@.len(),
            i <= n,
            stamps@ == spec_final_stamps(next.stamps@.take(i as int), failed@),
        decreases n - i,
    {
        let mut is_failed: bool = false;
        let m: usize = failed.len();
        let mut j: usize = 0;
        while j < m
            invariant
                m == failed@.len(),
                j <= m,
                i < n,
                n == next.stamps@.len(),
                is_failed <==> exists|p: int|
                    0 <= p < j && (#[trigger] failed@[p])@ == next.stamps@[i as int].path@,
            decreases m - j,
        {
            if crate::text::str_eq(failed[j].as_str(), next.stamps[i].path.as_str()) {
                is_failed = true;
            }
            j += 1;
        }
        proof {
            let sub1 = next.stamps@.take(i + 1);
            assert(sub1.drop_last() =~= next.stamps@.take(i as int));
            assert(sub1.last() == next.stamps@[i as int]);
        }
        if !is_failed {
            stamps.push(next.stamps[i].dup());
        }
        i += 1;
    }
    proof {
        assert(next.stamps@.take(n as int) =~= next.stamps@);
    }
    CacheMeta { dataset: next.dataset, mode: next.mode, stamps }
}

/// The process exit code of a run: a fatal orchestration error exits
/// 1, a completed run with at least one extractor failure exits 2, and
/// a clean run exits 0.
pub fn run_exit_code(fatal: bool, fail_count: usize) -> (r: i32)
    ensures
        fatal ==> r == 1,
        !fatal && fail_count > 0 ==> r == 2,
        !fatal && fail_count == 0 ==> r == 0,
{
    if fatal {
        1
    } else if fail_count > 0 {
        2
    } else {
        0
    }
}

/// Idempotence of a run's decisions. A successful run records exactly
/// the current stamps; diffing the same inputs against that manifest
/// reports nothing changed, and with the output gate passing, the
/// rebuild list is empty: the second run extracts nothing. Holds
/// whenever every stamp's quick hash is known (a stamp whose hash read
/// failed is rebuilt on every run, by design).
pub proof fn lemma_idempotent_run(cur: Seq<FileStamp>)
    requires
        stamps_unique(cur),
        forall|i: int| 0 <= i < cur.len() ==> !(#[trigger] cur[i]).hash_unknown(),
    ensures
        spec_changed_list(cur, cur) == Seq::<FileStamp>::empty(),
        spec_rebuild_list(spec_changed_list(cur, cur), true, cur) == Seq::<FileStamp>::empty(),
{
    crate::cache::lemma_diff_idempotent(cur);
}

/// The other half of idempotence: a run that extracts nothing merges
/// an empty result list, and an empty merge leaves every mapping
/// exactly as it was.
pub proof fn lemma_empty_merge_changes_nothing(
    base: PathMap,
    merged: PathMap,
    results: Seq<(String, Result<String, String>)>,
)
    requires
        results.len() == 0,
        forall|q: Seq<char>|
            merged.spec_map_get(q) == match spec_ok_lookup(results, q) {
                Some(name) => Some(name),
                None => base.spec_map_get(q),
            },
    ensures
        forall|q: Seq<char>| merged.spec_map_get(q) == base.spec_map_get(q),
{
}

/// Completeness of a run. When every current input either already had
/// a Parquet entry before the run or was extracted successfully in it,
/// the merged map holds an entry for every current input.
pub proof fn lemma_run_completeness(
    base: PathMap,
    merged: PathMap,
    results: Seq<(String, Result<String, String>)>,
    stamps: Seq<FileStamp>,
)
    requires
        forall|q: Seq<char>|
            merged.spec_map_get(q) == match spec_ok_lookup(results, q) {
                Some(name) => Some(name),
                None => base.spec_map_get(q),
            },
        forall|i: int|
            0 <= i < stamps.len() ==> base.spec_map_get(#[trigger] stamps[i].path@) is Some
                || spec_ok_lookup(results, stamps[i].path@) is Some,
    ensures
        forall|i: int|
            0 <= i < stamps.len() ==> merged.spec_map_get(#[trigger] stamps[i].path@) is Some,
{
}

/// Deletion handling is exact. After the deleted inputs' entries are
/// removed, a deleted path has no entry, and every other path keeps
/// exactly the mapping it had: no surviving input is touched.
pub proof fn lemma_deletion_handling(
    before: PathMap,
    after: PathMap,
    prev: Seq<FileStamp>,
    cur: Seq<FileStamp>,
    deleted: Seq<String>,
)
    requires
        deleted.len() == spec_deleted(prev, cur).len(),
        forall|j: int| 0 <= j < deleted.len() ==> (#[trigger] deleted[j])@ == spec_deleted(
            prev,
            cur,
        )[j].path@,
        forall|q: Seq<char>|
            after.spec_map_get(q) == if exists|j: int|
                0 <= j < deleted.len() && (#[trigger] deleted[j])@ == q {
                None::<Seq<char>>
            } else {
                before.spec_map_get(q)
            },
    ensures
        forall|j: int|
            0 <= j < spec_deleted(prev, cur).len() ==> after.spec_map_get(
                #[trigger] spec_deleted(prev, cur)[j].path@,
            ) is None,
        forall|q: Seq<char>|
            (forall|j: int|
                0 <= j < spec_deleted(prev, cur).len() ==> (#[trigger] spec_deleted(
                    prev,
                    cur,
                )[j]).path@ != q) ==> after.spec_map_get(q) == before.spec_map_get(q),
{
    assert forall|j: int| 0 <= j < spec_deleted(prev, cur).len() implies after.spec_map_get(
        #[trigger] spec_deleted(prev, cur)[j].path@,
    ) is None by {
        assert(deleted[j]@ == spec_deleted(prev, cur)[j].path@);
    }
}

/// The modes upstream still offers for one dataset base.
#[derive(Clone, Debug)]
pub struct AliveModes {
    pub dataset: String,
    pub has_single: bool,
    pub has_multi: bool,
}

/// One cleanup step of the sweeper.
#[derive(Clone, Debug)]
pub enum SweepAction {
    /// The dataset no longer exists upstream: remove its whole cache
    /// directory.
    RemoveDataset(String),
    /// The dataset exists but no longer in this mode: remove the
    /// mode's subdirectory.
    RemoveModeDir(String, RunMode),
}

/// The first alive record for a dataset name.
pub open spec fn spec_alive_lookup(alive: Seq<AliveModes>, name: Seq<char>) -> Option<AliveModes>
    decreases alive.len(),
{
    if alive.len() == 0 {
        None
    } else if alive[0].dataset@ == name {
        Some(alive[0])
    } else {
        spec_alive_lookup(alive.drop_first(), name)
    }
}

/// What the sweeper does to each cached dataset directory: a dataset
/// absent upstream loses its whole directory; one present only in some
/// modes loses the other modes' subdirectories; one present in both
/// modes is left alone.
#[verifier::rlimit(80)]
pub fn sweep_plan(cache_children: &Vec<String>, alive: &Vec<AliveModes>) -> (out: Vec<
    SweepAction,
>)
    ensures
        forall|a: int|
            0 <= a < out@.len() ==> match #[trigger] out@[a] {
                SweepAction::RemoveDataset(name) => spec_alive_lookup(alive@, name@) is None
                    && exists|c: int|
                    0 <= c < cache_children@.len() && (#[trigger] cache_children@[c])@ == name@,
                SweepAction::RemoveModeDir(name, mode) => {
                    &&& exists|c: int|
                        0 <= c < cache_children@.len() && (#[trigger] cache_children@[c])@
                            == name@
                    &&& match spec_alive_lookup(alive@, name@) {
                        Some(rec) => (mode == RunMode::Single && !rec.has_single) || (mode
                            == RunMode::Multi && !rec.has_multi),
                        None => false,
                    }
                },
            },
        forall|c: int|
            0 <= c < cache_children@.len() && spec_alive_lookup(
                alive@,
                (#[trigger] cache_children@[c])@,
            ) is None ==> exists|a: int|
                0 <= a < out@.len() && out@[a] == SweepAction::RemoveDataset(cache_children@[c]),
        forall|c: int|
            0 <= c < cache_children@.len() ==> match spec_alive_lookup(
                alive@,
                (#[trigger] cache_children@[c])@,
            ) {
                Some(rec) => (!rec.has_single ==> exists|a: int|
                    0 <= a < out@.len() && out@[a] == SweepAction::RemoveModeDir(
                        cache_children@[c],
                        RunMode::Single,
                    )) && (!rec.has_multi ==> exists|a: int|
                    0 <= a < out@.len() && out@[a] == SweepAction::RemoveModeDir(
                        cache_children@[c],
                        RunMode::Multi,
                    )),
                None => true,
            },
{
    let n: usize = cache_children.len();
    let mut out: Vec<SweepAction> = Vec::new();
    let mut i: usize = 0;
    while i < n
        invariant
            n == cache_children@.len(),
            i <= n,
            forall|a: int|
                0 <= a < out@.len() ==> match #[trigger] out@[a] {
                    SweepAction::RemoveDataset(name) => spec_alive_lookup(alive@, name@) is None
                        && exists|c: int|
                        0 <= c < i && (#[trigger] cache_children@[c])@ == name@,
                    SweepAction::RemoveModeDir(name, mode) => {
                        &&& exists|c: int|
                            0 <= c < i && (#[trigger] cache_children@[c])@ == name@
                        &&& match spec_alive_lookup(alive@, name@) {
                            Some(rec) => (mode == RunMode::Single && !rec.has_single) || (mode
                                == RunMode::Multi && !rec.has_multi),
                            None => false,
                        }
                    },
                },
            forall|c: int|
                0 <= c < i && spec_alive_lookup(
                    alive@,
                    (#[trigger] cache_children@[c])@,
                ) is None ==> exists|a: int|
                    0 <= a < out@.len() && out@[a] == SweepAction::RemoveDataset(
                        cache_children@[c],
                    ),
            forall|c: int|
                0 <= c < i ==> match spec_alive_lookup(
                    alive@,
                    (#[trigger] cache_children@[c])@,
                ) {
                    Some(rec) => (!rec.has_single ==> exists|a: int|
                        0 <= a < out@.len() && out@[a] == SweepAction::RemoveModeDir(
                            cache_children@[c],
                            RunMode::Single,
                        )) && (!rec.has_multi ==> exists|a: int|
                        0 <= a < out@.len() && out@[a] == SweepAction::RemoveModeDir(
                            cache_children@[c],
                            RunMode::Multi,
                        )),
                    None => true,
                },
        decreases n - i,
    {
        let ghost prev0 = out@;
        let name = &cache_children[i];
        let found = alive_lookup(alive, name.as_str());
        match found {
            None => {
                out.push(SweepAction::RemoveDataset(name.clone()));
                proof {
                    assert(forall|a: int| 0 <= a < prev0.len() ==> out@[a] == prev0[a]);
                    assert(out@[prev0.len() as int] == SweepAction::RemoveDataset(
                        cache_children@[i as int],
                    ));
                }
            },
            Some(rec) => {
                let has_single = rec.has_single;
                let has_multi = rec.has_multi;
                let ghost rec0 = *rec;
                if !has_single {
                    out.push(SweepAction::RemoveModeDir(name.clone(), RunMode::Single));
                }
                if !has_multi {
                    out.push(SweepAction::RemoveModeDir(name.clone(), RunMode::Multi));
                }
                proof {
                    assert(forall|a: int| 0 <= a < prev0.len() ==> out@[a] == prev0[a]);
                    if !has_single {
                        assert(out@[prev0.len() as int] == SweepAction::RemoveModeDir(
                            cache_children@[i as int],
                            RunMode::Single,
                        ));
                    }
                    if !has_multi {
                        assert(out@[out@.len() - 1] == SweepAction::RemoveModeDir(
                            cache_children@[i as int],
                            RunMode::Multi,
                        ));
                    }
                }
            },
        }
        i += 1;
    }
    out
}

/// Find the alive record of a dataset name.
fn alive_lookup<'a>(alive: &'a Vec<AliveModes>, name: &str) -> (r: Option<&'a AliveModes>)
    ensures
        match r {
            Some(rec) => spec_alive_lookup(alive@, name@) == Some(*rec),
            None => spec_alive_lookup(alive@, name@) is None,
        },
{
    let n: usize = alive.len();
    let mut i: usize = 0;
    proof {
        assert(alive@.skip(0) =~= alive@);
    }
    while i < n
        invariant
            n == alive@.len(),
            i <= n,
            spec_alive_lookup(alive@, name@) == spec_alive_lookup(alive@.skip(i as int), name@),
        decreases n - i,
    {
        proof {
            assert(alive@.skip(i as int)[0] == alive@[i as int]);
        }
        if crate::text::str_eq(alive[i].dataset.as_str(), name) {
            return Some(&alive[i]);
        }
        proof {
            assert(alive@.skip(i as int).drop_first() =~= alive@.skip(i + 1));
        }
        i += 1;
    }
    proof {
        assert(alive@.skip(n as int) =~= Seq::<AliveModes>::empty());
    }
    None
}

} // verus!
