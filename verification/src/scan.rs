use vstd::prelude::*;

use crate::naming::is_letter_ci;
use crate::text::{push_char, to_owned_string};
use crate::types::{FileStamp, RunMode, RunPlan};

verus! {

/// A workbook temporary file: the name begins with `~$`.
pub open spec fn spec_is_temp_name(s: Seq<char>) -> bool {
    s.len() >= 2 && s[0] == '~' && s[1] == '$'
}

/// The name carries a workbook extension: a dot followed by `xlsx` or
/// `xlsb` (letters in either case) at the very end, with a nonempty
/// stem before the dot.
pub open spec fn spec_is_excel_name(s: Seq<char>) -> bool {
    let n = s.len() as int;
    n >= 6 && s[n - 5] == '.' && is_letter_ci(s[n - 4], 'x') && is_letter_ci(s[n - 3], 'l')
        && is_letter_ci(s[n - 2], 's') && (is_letter_ci(s[n - 1], 'x') || is_letter_ci(
        s[n - 1],
        'b',
    ))
}

/// An input file name is accepted when it has a workbook extension
/// and is not a workbook temporary.
pub open spec fn spec_accept_name(s: Seq<char>) -> bool {
    spec_is_excel_name(s) && !spec_is_temp_name(s)
}

fn letter_ci_at(s: &str, i: usize, lower: char) -> (r: bool)
    requires
        i < s@.len(),
    ensures
        r == is_letter_ci(s@[i as int], lower),
{
    let c = s.get_char(i);
    c == lower || (c as u32) + 32 == lower as u32
}

/// Decide whether a directory entry's file name is an accepted input.
pub fn accept_file_name(name: &str) -> (r: bool)
    ensures
        r == spec_accept_name(name@),
{
    let n: usize = name.unicode_len();
    if n >= 2 && name.get_char(0) == '~' && name.get_char(1) == '$' {
        return false;
    }
    if n < 6 {
        return false;
    }
    let r = name.get_char(n - 5) == '.' && letter_ci_at(name, n - 4, 'x') && letter_ci_at(
        name,
        n - 3,
        'l',
    ) && letter_ci_at(name, n - 2, 's') && (letter_ci_at(name, n - 1, 'x') || letter_ci_at(
        name,
        n - 1,
        'b',
    ));
    r
}

/// One accepted directory entry: its path and its modification time.
#[derive(Clone, Debug)]
pub struct ScanEntry {
    pub path: String,
    pub mtime_unix_ms: i64,
}

/// The index of the newest entry: the first one whose mtime no later
/// entry strictly exceeds.
pub open spec fn spec_best_idx(s: Seq<ScanEntry>) -> int
    decreases s.len(),
{
    if s.len() <= 1 {
        0
    } else {
        let b = spec_best_idx(s.drop_last());
        if s.last().mtime_unix_ms > s[b].mtime_unix_ms {
            s.len() - 1
        } else {
            b
        }
    }
}

proof fn lemma_best_idx_in_range(s: Seq<ScanEntry>)
    requires
        s.len() >= 1,
    ensures
        0 <= spec_best_idx(s) < s.len(),
    decreases s.len(),
{
    if s.len() > 1 {
        lemma_best_idx_in_range(s.drop_last());
    }
}

/// Pick the newest accepted entry, as a Single run does: the greatest
/// mtime wins and the earliest such entry is kept.
pub fn pick_newest(entries: &Vec<ScanEntry>) -> (r: Option<String>)
    ensures
        match r {
            Some(p) => entries@.len() >= 1 && {
                let b = spec_best_idx(entries@);
                0 <= b < entries@.len() && p@ == entries@[b].path@
            },
            None => entries@.len() == 0,
        },
{
    let n: usize = entries.len();
    if n == 0 {
        return None;
    }
    let mut best: usize = 0;
    let mut i: usize = 1;
    proof {
        assert(entries@.take(1).len() == 1);
        assert(spec_best_idx(entries@.take(1)) == 0);
        assert(entries@.take(1)[0] == entries@[0]);
    }
    while i < n
        invariant
            n == entries@.len(),
            1 <= i <= n,
            best == spec_best_idx(entries@.take(i as int)),
            0 <= best < i,
        decreases n - i,
    {
        proof {
            let sub1 = entries@.take(i + 1);
            assert(sub1.drop_last() =~= entries@.take(i as int));
            assert(sub1.last() == entries@[i as int]);
            lemma_best_idx_in_range(entries@.take(i as int));
            assert(forall|k: int| 0 <= k < i + 1 ==> sub1[k] == entries@[k]);
        }
        if entries[i].mtime_unix_ms > entries[best].mtime_unix_ms {
            best = i;
        }
        i += 1;
    }
    proof {
        assert(entries@.take(n as int) =~= entries@);
    }
    Some(entries[best].path.clone())
}

/// Lexicographic order on character sequences, by code point.
pub open spec fn lex_lt(a: Seq<char>, b: Seq<char>) -> bool
    decreases a.len(),
{
    if b.len() == 0 {
        false
    } else if a.len() == 0 {
        true
    } else if a[0] != b[0] {
        (a[0] as u32) < (b[0] as u32)
    } else {
        lex_lt(a.drop_first(), b.drop_first())
    }
}

/// Weak lexicographic order.
pub open spec fn lex_le(a: Seq<char>, b: Seq<char>) -> bool {
    lex_lt(a, b) || a == b
}

proof fn lemma_lex_skip(a: Seq<char>, b: Seq<char>, i: int)
    requires
        0 <= i <= a.len(),
        i <= b.len(),
        forall|k: int| 0 <= k < i ==> a[k] == b[k],
    ensures
        lex_lt(a, b) == lex_lt(a.skip(i), b.skip(i)),
    decreases i,
{
    if i > 0 {
        assert(a.len() > 0 && b.len() > 0 && a[0] == b[0]);
        let a1 = a.drop_first();
        let b1 = b.drop_first();
        assert(forall|k: int| 0 <= k < i - 1 ==> a1[k] == a[k + 1] && b1[k] == b[k + 1]);
        lemma_lex_skip(a1, b1, i - 1);
        assert(a1.skip(i - 1) =~= a.skip(i));
        assert(b1.skip(i - 1) =~= b.skip(i));
    } else {
        assert(a.skip(0) =~= a);
        assert(b.skip(0) =~= b);
    }
}

/// The lexicographic order is total.
pub proof fn lemma_lex_total(a: Seq<char>, b: Seq<char>)
    ensures
        lex_le(a, b) || lex_le(b, a),
    decreases a.len(),
{
    if a.len() == 0 {
        if b.len() == 0 {
            assert(a =~= b);
        }
    } else if b.len() == 0 {
    } else if a[0] != b[0] {
        vstd::utf8::char_u32_cast(a[0], a[0] as u32);
        vstd::utf8::char_u32_cast(b[0], b[0] as u32);
        assert((a[0] as u32) != (b[0] as u32));
    } else {
        let a1 = a.drop_first();
        let b1 = b.drop_first();
        lemma_lex_total(a1, b1);
        assert(lex_lt(a, b) == lex_lt(a1, b1));
        assert(lex_lt(b, a) == lex_lt(b1, a1));
        if a1 == b1 {
            assert(a =~= b) by {
                assert(forall|k: int|
                    1 <= k < a.len() ==> a[k] == a1[k - 1] && b[k] == b1[k - 1]);
            }
        }
    }
}

/// The lexicographic order is transitive.
pub proof fn lemma_lex_trans(a: Seq<char>, b: Seq<char>, c: Seq<char>)
    requires
        lex_le(a, b),
        lex_le(b, c),
    ensures
        lex_le(a, c),
    decreases a.len(),
{
    if a == b || b == c {
    } else {
        assert(lex_lt(a, b) && lex_lt(b, c));
        assert(c.len() > 0);
        if a.len() == 0 {
        } else {
            assert(b.len() > 0);
            if a[0] == b[0] && b[0] == c[0] {
                lemma_lex_trans(a.drop_first(), b.drop_first(), c.drop_first());
                if a.drop_first() == c.drop_first() && a[0] == c[0] {
                    assert(a =~= c) by {
                        assert(forall|k: int|
                            1 <= k < a.len() ==> a[k] == a.drop_first()[k - 1] && c[k]
                                == c.drop_first()[k - 1]);
                    }
                }
            }
        }
    }
}

/// Character-wise weak lexicographic comparison.
pub fn str_le(a: &str, b: &str) -> (r: bool)
    ensures
        r == lex_le(a@, b@),
{
    let la: usize = a.unicode_len();
    let lb: usize = b.unicode_len();
    let mut i: usize = 0;
    while i < la && i < lb
        invariant
            la == a@.len(),
            lb == b@.len(),
            i <= la,
            i <= lb,
            forall|k: int| 0 <= k < i ==> a@[k] == b@[k],
        decreases la - i,
    {
        let ca = a.get_char(i);
        let cb = b.get_char(i);
        if ca != cb {
            proof {
                lemma_lex_skip(a@, b@, i as int);
                assert(a@.skip(i as int)[0] == a@[i as int]);
                assert(b@.skip(i as int)[0] == b@[i as int]);
                if a@ == b@ {
                    assert(false);
                }
            }
            return (ca as u32) < (cb as u32);
        }
        i += 1;
    }
    proof {
        if la <= lb {
            lemma_lex_skip(a@, b@, la as int);
            assert(a@.skip(la as int).len() == 0);
            if la == lb {
                assert(a@ =~= b@);
            } else {
                assert(b@.skip(la as int).len() > 0);
            }
        } else {
            lemma_lex_skip(a@, b@, lb as int);
            assert(b@.skip(lb as int).len() == 0);
            assert(a@.skip(lb as int).len() > 0);
            assert(!lex_lt(a@, b@));
            if a@ == b@ {
                assert(false);
            }
        }
    }
    la <= lb
}

/// Paths in ascending lexicographic order.
pub open spec fn paths_sorted(s: Seq<String>) -> bool {
    forall|i: int, j: int| 0 <= i < j < s.len() ==> lex_le(s[i]@, s[j]@)
}

/// Sort paths ascending, keeping exactly the same entries.
#[verifier::rlimit(50)]
pub fn sort_paths(v: &Vec<String>) -> (out: Vec<String>)
    ensures
        paths_sorted(out@),
        out@.to_multiset() == v@.to_multiset(),
        out@.len() == v@.len(),
{
    let n: usize = v.len();
    let mut out: Vec<String> = Vec::new();
    let mut i: usize = 0;
    proof {
        assert(v@.take(0) =~= out@);
    }
    while i < n
        invariant
            n == v@.len(),
            i <= n,
            out@.len() == i,
            paths_sorted(out@),
            out@.to_multiset() == v@.take(i as int).to_multiset(),
        decreases n - i,
    {
        let x = v[i].clone();
        let m: usize = out.len();
        let mut k: usize = 0;
        while k < m && str_le(out[k].as_str(), x.as_str())
            invariant
                m == out@.len(),
                k <= m,
                forall|j: int| 0 <= j < k ==> lex_le(out@[j]@, x@),
            decreases m - k,
        {
            k += 1;
        }
        proof {
            if k < m {
                lemma_lex_total(out@[k as int]@, x@);
            }
        }
        let ghost prev = out@;
        out.insert(k, x);
        proof {
            assert(out@ == prev.insert(k as int, x));
            prev.insert_ensures(k as int, x);
            assert forall|p: int, q: int| 0 <= p < q < out@.len() implies lex_le(
                out@[p]@,
                out@[q]@,
            ) by {
                if q < k {
                    assert(out@[p] == prev[p] && out@[q] == prev[q]);
                } else if p > k {
                    assert(out@[p] == prev[p - 1] && out@[q] == prev[q - 1]);
                } else if p < k && q == k {
                    assert(out@[p] == prev[p]);
                } else if p == k {
                    assert(out@[q] == prev[q - 1]);
                    if k < prev.len() {
                        assert(lex_le(x@, prev[k as int]@));
                        if q - 1 > k {
                            lemma_lex_trans(x@, prev[k as int]@, prev[q - 1]@);
                        }
                    }
                } else {
                    assert(p < k && q > k);
                    assert(out@[p] == prev[p] && out@[q] == prev[q - 1]);
                }
            }
            vstd::seq_lib::to_multiset_insert(prev, k as int, x);
            let sub1 = v@.take(i + 1);
            assert(sub1.drop_last() =~= v@.take(i as int));
            assert(sub1.last() == v@[i as int]);
            assert(sub1 =~= v@.take(i as int).push(v@[i as int]));
            vstd::seq_lib::to_multiset_build(v@.take(i as int), v@[i as int]);
            assert(v@.take(i + 1).to_multiset() =~= v@.take(i as int).to_multiset().insert(
                v@[i as int],
            ));
            assert(out@.to_multiset() =~= v@.take(i + 1).to_multiset());
        }
        i += 1;
    }
    proof {
        assert(v@.take(n as int) =~= v@);
        vstd::seq_lib::to_multiset_len(out@);
        vstd::seq_lib::to_multiset_len(v@);
    }
    out
}

/// Why no run plan could be built.
#[derive(Clone, Copy, Debug, PartialEq, Eq, Structural)]
pub enum PlanError {
    /// Single mode found no stable workbook to pick.
    NoStableInput,
    /// Multi mode found no input files at all.
    NoInputFiles,
}

/// The suffix of a dataset directory for a mode.
pub fn mode_suffix(mode: RunMode) -> (r: &'static str)
    ensures
        mode == RunMode::Single ==> r@ == "_single"@,
        mode == RunMode::Multi ==> r@ == "_multi"@,
{
    match mode {
        RunMode::Single => "_single",
        RunMode::Multi => "_multi",
    }
}

/// The directory of a dataset in one mode under the input root, with
/// forward-slash separators.
pub fn dataset_dir(input_root: &str, dataset: &str, mode: RunMode) -> (r: String)
    ensures
        mode == RunMode::Single ==> r@ == input_root@ + seq!['/'] + dataset@ + "_single"@,
        mode == RunMode::Multi ==> r@ == input_root@ + seq!['/'] + dataset@ + "_multi"@,
{
    let mut out = to_owned_string(input_root);
    push_char(&mut out, '/');
    out.append(dataset);
    out.append(mode_suffix(mode));
    out
}

/// Build the run plan over the accepted entries of a dataset
/// directory: Single picks the newest entry, Multi takes every entry
/// with the paths sorted ascending.
pub fn build_run_plan(dataset: &str, mode: RunMode, accepted: &Vec<ScanEntry>) -> (r: Result<
    RunPlan,
    PlanError,
>)
    ensures
        match r {
            Ok(plan) => {
                &&& plan.dataset@ == dataset@
                &&& plan.mode == mode
                &&& accepted@.len() >= 1
                &&& match mode {
                    RunMode::Single => plan.files@.len() == 1 && {
                        let b = spec_best_idx(accepted@);
                        plan.files@[0]@ == accepted@[b].path@
                    },
                    RunMode::Multi => {
                        &&& paths_sorted(plan.files@)
                        &&& plan.files@.to_multiset() == accepted@.map_values(
                            |e: ScanEntry| e.path,
                        ).to_multiset()
                        &&& plan.files@.len() == accepted@.len()
                    },
                }
            },
            Err(e) => accepted@.len() == 0 && (e == PlanError::NoStableInput <==> mode
                == RunMode::Single) && (e == PlanError::NoInputFiles <==> mode == RunMode::Multi),
        },
{
    match mode {
        RunMode::Single => match pick_newest(accepted) {
            Some(p) => {
                let mut files: Vec<String> = Vec::new();
                files.push(p);
                Ok(RunPlan { dataset: to_owned_string(dataset), mode, files })
            },
            None => Err(PlanError::NoStableInput),
        },
        RunMode::Multi => {
            if accepted.len() == 0 {
                return Err(PlanError::NoInputFiles);
            }
            let n: usize = accepted.len();
            let mut paths: Vec<String> = Vec::new();
            let mut i: usize = 0;
            while i < n
                invariant
                    n == accepted@.len(),
                    i <= n,
                    paths@ =~= accepted@.take(i as int).map_values(|e: ScanEntry| e.path),
                decreases n - i,
            {
                paths.push(accepted[i].path.clone());
                proof {
                    assert(accepted@.take(i + 1).drop_last() =~= accepted@.take(i as int));
                    assert(paths@ =~= accepted@.take(i + 1).map_values(|e: ScanEntry| e.path));
                }
                i += 1;
            }
            proof {
                assert(accepted@.take(n as int) =~= accepted@);
            }
            let files = sort_paths(&paths);
            Ok(RunPlan { dataset: to_owned_string(dataset), mode, files })
        },
    }
}

/// What the quick content hash of a file's head and tail windows is:
/// a function of those bytes alone.
pub uninterp spec fn quick_hash_of(head: Seq<u8>, tail: Seq<u8>) -> Seq<char>;

/// Relies on blake3: `Hasher::update` over the head window then the
/// tail window, `finalize`, and `Hash::to_hex`, which renders the
/// 32-byte digest as 64 lowercase hexadecimal characters. The digest
/// depends on the hashed bytes alone.
#[verifier::external_body]
fn blake3_quick_hash(head: &Vec<u8>, tail: &Vec<u8>) -> (r: String)
    ensures
        r@ == quick_hash_of(head@, tail@),
        r@.len() == 64,
{
    let mut hasher = blake3::Hasher::new();
    hasher.update(head.as_slice());
    hasher.update(tail.as_slice());
    hasher.finalize().to_hex().as_str().to_string()
}

/// Assemble the stamp of one input file from its stat fields and the
/// head and tail windows read for the quick hash. A failed read hands
/// `read_ok == false` and yields the sentinel hash, which never equals
/// a real digest and therefore forces a rebuild.
pub fn make_stamp(
    path: &str,
    size: u64,
    mtime_unix_ms: i64,
    read_ok: bool,
    head: &Vec<u8>,
    tail: &Vec<u8>,
) -> (st: FileStamp)
    ensures
        st.path@ == path@,
        st.size == size,
        st.mtime_unix_ms == mtime_unix_ms,
        read_ok ==> st.quick_hash@ == quick_hash_of(head@, tail@) && !st.hash_unknown(),
        !read_ok ==> st.hash_unknown(),
{
    let quick_hash: String = if read_ok {
        let h = blake3_quick_hash(head, tail);
        proof {
            reveal_strlit("ERR");
            assert(h@.len() == 64 && "ERR"@.len() == 3);
        }
        h
    } else {
        to_owned_string("ERR")
    };
    FileStamp { path: to_owned_string(path), size, mtime_unix_ms, quick_hash }
}

/// Read a mode name as the command line gives it: `multi` in any
/// letter case selects Multi, anything else Single.
pub fn parse_mode(s: &str) -> (mode: RunMode)
    ensures
        mode == (if crate::text::spec_ascii_lower(s@) == "multi"@ {
            RunMode::Multi
        } else {
            RunMode::Single
        }),
{
    let lowered = crate::text::ascii_lower(s);
    if crate::text::str_eq(lowered.as_str(), "multi") {
        RunMode::Multi
    } else {
        RunMode::Single
    }
}

/// A Single run reuses the cached Parquet exactly when nothing changed
/// and the pointer's target is still on disk; otherwise it extracts.
pub fn single_needs_extract(changed_len: usize, parquet_missing: bool) -> (r: bool)
    ensures
        r == (changed_len > 0 || parquet_missing),
{
    changed_len > 0 || parquet_missing
}

/// Split a directory name into its dataset base and mode: a trimmed
/// name ending in `_single` or `_multi` with a nonempty trimmed base.
pub open spec fn spec_parse_dataset_dir(name: Seq<char>) -> Option<(Seq<char>, RunMode)> {
    let t = crate::text::spec_trim(name);
    if t.len() >= 7 && t.skip(t.len() - 7) == "_single"@ && crate::text::spec_trim(
        t.take(t.len() - 7),
    ).len() > 0 {
        Some((crate::text::spec_trim(t.take(t.len() - 7)), RunMode::Single))
    } else if t.len() >= 6 && t.skip(t.len() - 6) == "_multi"@ && crate::text::spec_trim(
        t.take(t.len() - 6),
    ).len() > 0 {
        Some((crate::text::spec_trim(t.take(t.len() - 6)), RunMode::Multi))
    } else {
        None
    }
}

fn ends_with(s: &String, suffix: &str) -> (r: bool)
    ensures
        r == (s@.len() >= suffix@.len() && s@.skip(s@.len() - suffix@.len() as int) == suffix@),
{
    let n: usize = s.as_str().unicode_len();
    let m: usize = suffix.unicode_len();
    if m > n {
        return false;
    }
    let mut i: usize = 0;
    while i < m
        invariant
            n == s@.len(),
            m == suffix@.len(),
            m <= n,
            i <= m,
            forall|k: int| 0 <= k < i ==> s@[n - m + k] == suffix@[k],
        decreases m - i,
    {
        if s.as_str().get_char(n - m + i) != suffix.get_char(i) {
            proof {
                if s@.skip(n - m as int) == suffix@ {
                    assert(s@.skip(n - m as int)[i as int] == s@[n - m + i]);
                    assert(false);
                }
            }
            return false;
        }
        i += 1;
    }
    proof {
        assert(s@.skip(n - m as int) =~= suffix@);
    }
    true
}

fn take_prefix(s: &String, upto: usize) -> (r: String)
    requires
        upto <= s@.len(),
    ensures
        r@ == s@.take(upto as int),
{
    let mut out = String::new();
    let mut i: usize = 0;
    while i < upto
        invariant
            upto <= s@.len(),
            i <= upto,
            out@ =~= s@.take(i as int),
        decreases upto - i,
    {
        push_char(&mut out, s.as_str().get_char(i));
        proof {
            assert(out@ =~= s@.take(i + 1));
        }
        i += 1;
    }
    out
}

/// Parse a dataset directory name into its base and mode.
pub fn parse_dataset_folder_name(name: &str) -> (r: Option<(String, RunMode)>)
    ensures
        match r {
            Some(p) => spec_parse_dataset_dir(name@) == Some((p.0@, p.1)),
            None => spec_parse_dataset_dir(name@) is None,
        },
{
    proof {
        reveal_strlit("_single");
        reveal_strlit("_multi");
    }
    let t = crate::text::trim(name);
    let tn: usize = t.as_str().unicode_len();
    if ends_with(&t, "_single") {
        let base_raw = take_prefix(&t, tn - 7);
        let base = crate::text::trim(base_raw.as_str());
        if base.as_str().unicode_len() > 0 {
            return Some((base, RunMode::Single));
        }
    }
    if ends_with(&t, "_multi") {
        let base_raw = take_prefix(&t, tn - 6);
        let base = crate::text::trim(base_raw.as_str());
        if base.as_str().unicode_len() > 0 {
            return Some((base, RunMode::Multi));
        }
    }
    None
}

} // verus!
