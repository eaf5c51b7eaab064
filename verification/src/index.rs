use vstd::prelude::*;

use crate::scan::{lemma_lex_total, lemma_lex_trans, lex_le, str_le};
use crate::text::{push_char, spec_trim, str_eq, trim};

verus! {

/// The first position of `c` in `s`, or the length when absent.
pub open spec fn spec_find(s: Seq<char>, c: char) -> int
    decreases s.len(),
{
    if s.len() == 0 {
        0
    } else if s[0] == c {
        0
    } else {
        1 + spec_find(s.drop_first(), c)
    }
}

proof fn lemma_find_at(s: Seq<char>, c: char, i: int)
    requires
        0 <= i <= s.len(),
        forall|k: int| 0 <= k < i ==> s[k] != c,
        i == s.len() || s[i] == c,
    ensures
        spec_find(s, c) == i,
    decreases i,
{
    if i == 0 {
        if s.len() > 0 && s[0] != c {
            assert(s[i] == c);
        }
    } else {
        let t = s.drop_first();
        assert(forall|k: int| 0 <= k < i - 1 ==> t[k] == s[k + 1] && t[k] != c);
        if i < s.len() {
            assert(t[i - 1] == s[i]);
        }
        lemma_find_at(t, c, i - 1);
    }
}

proof fn lemma_find_range(s: Seq<char>, c: char)
    ensures
        0 <= spec_find(s, c) <= s.len(),
        spec_find(s, c) < s.len() ==> s[spec_find(s, c)] == c,
        forall|k: int| 0 <= k < spec_find(s, c) ==> s[k] != c,
    decreases s.len(),
{
    if s.len() > 0 && s[0] != c {
        let t = s.drop_first();
        lemma_find_range(t, c);
        assert(forall|k: int| 1 <= k < spec_find(s, c) ==> s[k] == t[k - 1]);
    }
}

/// Find the first position of a character.
pub fn find_char(s: &str, c: char) -> (r: usize)
    ensures
        r == spec_find(s@, c),
        r <= s@.len(),
{
    let n: usize = s.unicode_len();
    let mut i: usize = 0;
    while i < n
        invariant
            n == s@.len(),
            i <= n,
            forall|k: int| 0 <= k < i ==> s@[k] != c,
        decreases n - i,
    {
        if s.get_char(i) == c {
            proof {
                lemma_find_at(s@, c, i as int);
            }
            return i;
        }
        i += 1;
    }
    proof {
        lemma_find_at(s@, c, n as int);
    }
    n
}

/// The segments of a text between newline characters, the last one
/// unterminated.
pub open spec fn spec_segments(s: Seq<char>) -> Seq<Seq<char>>
    decreases s.len(),
    via spec_segments_dec
{
    let p = spec_find(s, '\n');
    if p == s.len() {
        seq![s]
    } else {
        seq![s.take(p)] + spec_segments(s.skip(p + 1))
    }
}

#[via_fn]
proof fn spec_segments_dec(s: Seq<char>) {
    lemma_find_range(s, '\n');
}

/// The entry a line contributes: the trimmed line split at its first
/// tab, both sides trimmed, skipped when the line is blank, has no
/// tab, or leaves an empty key or value.
pub open spec fn spec_line_entry(line: Seq<char>) -> Option<(Seq<char>, Seq<char>)> {
    let t = spec_trim(line);
    if t.len() == 0 {
        None
    } else {
        let p = spec_find(t, '\t');
        if p == t.len() {
            None
        } else {
            let k = spec_trim(t.take(p));
            let v = spec_trim(t.skip(p + 1));
            if k.len() == 0 || v.len() == 0 {
                None
            } else {
                Some((k, v))
            }
        }
    }
}

/// The entries of a sequence of lines, in order.
pub open spec fn spec_line_entries(lines: Seq<Seq<char>>) -> Seq<(Seq<char>, Seq<char>)>
    decreases lines.len(),
{
    if lines.len() == 0 {
        Seq::<(Seq<char>, Seq<char>)>::empty()
    } else {
        let rest = spec_line_entries(lines.drop_last());
        match spec_line_entry(lines.last()) {
            Some(e) => rest.push(e),
            None => rest,
        }
    }
}

/// The value of the last entry with the given key, as repeated keys in
/// a file overwrite earlier ones.
pub open spec fn spec_last_get(entries: Seq<(Seq<char>, Seq<char>)>, k: Seq<char>) -> Option<
    Seq<char>,
>
    decreases entries.len(),
{
    if entries.len() == 0 {
        None
    } else if entries.last().0 == k {
        Some(entries.last().1)
    } else {
        spec_last_get(entries.drop_last(), k)
    }
}

/// The keys of a pair list are pairwise distinct.
pub open spec fn keys_unique(entries: Seq<(String, String)>) -> bool {
    forall|i: int, j: int| 0 <= i < j < entries.len() ==> entries[i].0@ != entries[j].0@
}

/// The value of the first entry with the given key.
pub open spec fn spec_get(entries: Seq<(String, String)>, k: Seq<char>) -> Option<Seq<char>>
    decreases entries.len(),
{
    if entries.len() == 0 {
        None
    } else if entries[0].0@ == k {
        Some(entries[0].1@)
    } else {
        spec_get(entries.drop_first(), k)
    }
}

proof fn lemma_get_none(entries: Seq<(String, String)>, k: Seq<char>)
    ensures
        (spec_get(entries, k) is None) <==> (forall|j: int|
            0 <= j < entries.len() ==> (#[trigger] entries[j]).0@ != k),
    decreases entries.len(),
{
    if entries.len() > 0 {
        let t = entries.drop_first();
        lemma_get_none(t, k);
        assert(forall|j: int| 0 <= j < t.len() ==> t[j] == entries[j + 1]);
        if entries[0].0@ != k && (spec_get(t, k) is None) {
            assert(forall|j: int|
                1 <= j < entries.len() ==> (#[trigger] entries[j]).0@ == t[j - 1].0@);
        }
    }
}

proof fn lemma_get_update(entries: Seq<(String, String)>, i: int, x: (String, String), q: Seq<
    char,
>)
    requires
        0 <= i < entries.len(),
        entries[i].0@ == x.0@,
        forall|j: int| 0 <= j < i ==> entries[j].0@ != x.0@,
    ensures
        spec_get(entries.update(i, x), q) == if q == x.0@ {
            Some(x.1@)
        } else {
            spec_get(entries, q)
        },
    decreases i,
{
    let u = entries.update(i, x);
    if i == 0 {
        assert(u[0] == x);
        if q != x.0@ {
            assert(u.drop_first() =~= entries.drop_first());
        }
    } else {
        assert(u[0] == entries[0]);
        let t = entries.drop_first();
        assert(forall|j: int| 0 <= j < i - 1 ==> t[j] == entries[j + 1]);
        assert(t[i - 1] == entries[i]);
        lemma_get_update(t, i - 1, x, q);
        assert(u.drop_first() =~= t.update(i - 1, x));
        if q == x.0@ {
            assert(entries[0].0@ != q);
        }
    }
}

proof fn lemma_get_push(entries: Seq<(String, String)>, x: (String, String), q: Seq<char>)
    requires
        forall|j: int| 0 <= j < entries.len() ==> (#[trigger] entries[j]).0@ != x.0@,
    ensures
        spec_get(entries.push(x), q) == if spec_get(entries, q) is Some {
            spec_get(entries, q)
        } else if q == x.0@ {
            Some(x.1@)
        } else {
            None
        },
    decreases entries.len(),
{
    let u = entries.push(x);
    if entries.len() == 0 {
        assert(u.len() == 1);
        assert(u[0] == x);
        assert(u.drop_first() =~= Seq::<(String, String)>::empty());
        assert(spec_get(u.drop_first(), q) is None);
        assert(spec_get(entries, q) is None);
        if q == x.0@ {
            assert(spec_get(u, q) == Some(x.1@));
        } else {
            assert(spec_get(u, q) is None);
        }
    } else {
        assert(u[0] == entries[0]);
        let t = entries.drop_first();
        assert(forall|j: int| 0 <= j < t.len() ==> t[j] == entries[j + 1]);
        lemma_get_push(t, x, q);
        assert(u.drop_first() =~= t.push(x));
        assert(spec_get(u.drop_first(), q) == spec_get(t.push(x), q));
        if entries[0].0@ == q {
            assert(spec_get(u, q) == Some(entries[0].1@));
            assert(spec_get(entries, q) == Some(entries[0].1@));
        } else {
            assert(spec_get(u, q) == spec_get(t.push(x), q));
            assert(spec_get(entries, q) == spec_get(t, q));
        }
    }
}

proof fn lemma_get_remove(entries: Seq<(String, String)>, i: int, q: Seq<char>)
    requires
        0 <= i < entries.len(),
        keys_unique(entries),
    ensures
        spec_get(entries.remove(i), q) == if q == entries[i].0@ {
            None
        } else {
            spec_get(entries, q)
        },
    decreases i,
{
    let u = entries.remove(i);
    if i == 0 {
        assert(u =~= entries.drop_first());
        if q == entries[0].0@ {
            lemma_get_none(u, q);
            assert(forall|j: int| 0 <= j < u.len() ==> u[j] == entries[j + 1]);
        }
    } else {
        assert(u[0] == entries[0]);
        let t = entries.drop_first();
        assert(forall|j: int| 0 <= j < t.len() ==> t[j] == entries[j + 1]);
        assert(keys_unique(t));
        lemma_get_remove(t, i - 1, q);
        assert(u.drop_first() =~= t.remove(i - 1));
        if q == entries[i].0@ {
            assert(entries[0].0@ != entries[i].0@);
        }
    }
}

/// The persisted mapping from input path to Parquet file name of a
/// Multi dataset: a list of pairs whose keys are pairwise distinct.
#[derive(Clone, Debug)]
pub struct PathMap {
    pub entries: Vec<(String, String)>,
}

impl PathMap {
    /// Keys are unique: the list is a mapping.
    pub open spec fn wf(self) -> bool {
        keys_unique(self.entries@)
    }

    /// The value mapped to a key.
    pub open spec fn spec_map_get(self, k: Seq<char>) -> Option<Seq<char>> {
        spec_get(self.entries@, k)
    }

    /// The empty mapping.
    pub fn new() -> (r: PathMap)
        ensures
            r.wf(),
            forall|k: Seq<char>| r.spec_map_get(k) is None,
    {
        let r = PathMap { entries: Vec::new() };
        proof {
            assert forall|k: Seq<char>| r.spec_map_get(k) is None by {
                lemma_get_none(r.entries@, k);
            }
        }
        r
    }

    /// How many entries the mapping holds.
    pub fn len(&self) -> (n: usize)
        ensures
            n == self.entries@.len(),
    {
        self.entries.len()
    }

    /// Look a path up.
    pub fn get<'a>(&'a self, k: &str) -> (r: Option<&'a String>)
        ensures
            match r {
                Some(v) => self.spec_map_get(k@) == Some(v@),
                None => self.spec_map_get(k@) is None,
            },
    {
        let n: usize = self.entries.len();
        let mut i: usize = 0;
        proof {
            assert(self.entries@.skip(0) =~= self.entries@);
        }
        while i < n
            invariant
                n == self.entries@.len(),
                i <= n,
                spec_get(self.entries@, k@) == spec_get(self.entries@.skip(i as int), k@),
            decreases n - i,
        {
            proof {
                assert(self.entries@.skip(i as int)[0] == self.entries@[i as int]);
            }
            if str_eq(self.entries[i].0.as_str(), k) {
                return Some(&self.entries[i].1);
            }
            proof {
                assert(self.entries@.skip(i as int).drop_first() =~= self.entries@.skip(i + 1));
            }
            i += 1;
        }
        proof {
            assert(self.entries@.skip(n as int) =~= Seq::<(String, String)>::empty());
        }
        None
    }

    /// Map a path to a Parquet name, replacing any earlier mapping of
    /// the same path and leaving every other path untouched.
    pub fn insert(&mut self, k: String, v: String)
        requires
            old(self).wf(),
        ensures
            final(self).wf(),
            final(self).spec_map_get(k@) == Some(v@),
            forall|q: Seq<char>|
                q != k@ ==> final(self).spec_map_get(q) == old(self).spec_map_get(q),
    {
        let n: usize = self.entries.len();
        let mut i: usize = 0;
        while i < n
            invariant
                n == self.entries@.len(),
                i <= n,
                forall|j: int| 0 <= j < i ==> (#[trigger] self.entries@[j]).0@ != k@,
                *self == *old(self),
                old(self).wf(),
            decreases n - i,
        {
            if str_eq(self.entries[i].0.as_str(), k.as_str()) {
                let ghost kk = k@;
                let ghost vv = v@;
                let ghost e1 = self.entries@;
                proof {
                    lemma_get_update(e1, i as int, (k, v), kk);
                    assert forall|q: Seq<char>| q != kk implies spec_get(
                        e1.update(i as int, (k, v)),
                        q,
                    ) == spec_get(e1, q) by {
                        lemma_get_update(e1, i as int, (k, v), q);
                    }
                }
                self.entries.set(i, (k, v));
                proof {
                    let e2 = self.entries@;
                    assert forall|a: int, b: int|
                        0 <= a < b < e2.len() implies e2[a].0@ != e2[b].0@ by {
                        if a != i && b != i {
                            assert(e2[a] == e1[a] && e2[b] == e1[b]);
                        } else if a == i {
                            assert(e2[a].0@ == kk && e1[i as int].0@ == kk);
                            assert(e2[b] == e1[b]);
                        } else {
                            assert(e2[b].0@ == kk && e1[i as int].0@ == kk);
                            assert(e2[a] == e1[a]);
                        }
                    }
                }
                return ;
            }
            i += 1;
        }
        let ghost kk = k@;
        let ghost e1 = self.entries@;
        proof {
            lemma_get_push(e1, (k, v), kk);
            assert forall|q: Seq<char>| q != kk implies spec_get(e1.push((k, v)), q) == spec_get(
                e1,
                q,
            ) by {
                lemma_get_push(e1, (k, v), q);
                lemma_get_none(e1, q);
            }
            lemma_get_none(e1, kk);
        }
        self.entries.push((k, v));
        proof {
            let e2 = self.entries@;
            assert forall|a: int, b: int| 0 <= a < b < e2.len() implies e2[a].0@ != e2[b].0@ by {
                if b < e2.len() - 1 {
                    assert(e2[a] == e1[a] && e2[b] == e1[b]);
                } else {
                    assert(e2[a] == e1[a]);
                    assert(e2[b].0@ == kk);
                    assert(e1[a].0@ != kk);
                }
            }
        }
    }

    /// Unmap a path, leaving every other path untouched.
    pub fn remove(&mut self, k: &str)
        requires
            old(self).wf(),
        ensures
            final(self).wf(),
            final(self).spec_map_get(k@) is None,
            forall|q: Seq<char>|
                q != k@ ==> final(self).spec_map_get(q) == old(self).spec_map_get(q),
    {
        let n: usize = self.entries.len();
        let mut i: usize = 0;
        while i < n
            invariant
                n == self.entries@.len(),
                i <= n,
                forall|j: int| 0 <= j < i ==> (#[trigger] self.entries@[j]).0@ != k@,
                *self == *old(self),
                old(self).wf(),
            decreases n - i,
        {
            if str_eq(self.entries[i].0.as_str(), k) {
                proof {
                    let e = self.entries@;
                    assert(keys_unique(e)) by {
                        assert(*self == *old(self));
                    }
                    lemma_get_remove(e, i as int, k@);
                    assert forall|q: Seq<char>| q != k@ implies spec_get(
                        e.remove(i as int),
                        q,
                    ) == spec_get(e, q) by {
                        lemma_get_remove(e, i as int, q);
                        if q == e[i as int].0@ {
                        }
                    }
                    let er = e.remove(i as int);
                    assert forall|a: int, b: int|
                        0 <= a < b < er.len() implies er[a].0@ != er[b].0@ by {
                        assert(er[a] == if a < i {
                            e[a]
                        } else {
                            e[a + 1]
                        });
                        assert(er[b] == if b < i {
                            e[b]
                        } else {
                            e[b + 1]
                        });
                    }
                }
                self.entries.remove(i);
                return ;
            }
            i += 1;
        }
        proof {
            lemma_get_none(self.entries@, k@);
        }
    }

    /// The entries sorted ascending by path, as the mapping is
    /// persisted.
    pub fn sorted_entries(&self) -> (out: Vec<(String, String)>)
        ensures
            out@.len() == self.entries@.len(),
            out@.to_multiset() == self.entries@.to_multiset(),
            forall|i: int, j: int| 0 <= i < j < out@.len() ==> lex_le(out@[i].0@, out@[j].0@),
    {
        let v = &self.entries;
        let n: usize = v.len();
        let mut out: Vec<(String, String)> = Vec::new();
        let mut i: usize = 0;
        proof {
            assert(v@.take(0) =~= out@);
        }
        while i < n
            invariant
                n == v@.len(),
                i <= n,
                out@.len() == i,
                forall|p: int, q: int| 0 <= p < q < out@.len() ==> lex_le(out@[p].0@, out@[q].0@),
                out@.to_multiset() == v@.take(i as int).to_multiset(),
            decreases n - i,
        {
            let x = (v[i].0.clone(), v[i].1.clone());
            proof {
                assert(x == v@[i as int]);
            }
            let m: usize = out.len();
            let mut k: usize = 0;
            while k < m && str_le(out[k].0.as_str(), x.0.as_str())
                invariant
                    m == out@.len(),
                    k <= m,
                    forall|j: int| 0 <= j < k ==> lex_le(out@[j].0@, x.0@),
                decreases m - k,
            {
                k += 1;
            }
            proof {
                if k < m {
                    lemma_lex_total(out@[k as int].0@, x.0@);
                }
            }
            let ghost prev = out@;
            out.insert(k, x);
            proof {
                prev.insert_ensures(k as int, x);
                assert forall|p: int, q: int| 0 <= p < q < out@.len() implies lex_le(
                    out@[p].0@,
                    out@[q].0@,
                ) by {
                    if q < k {
                    } else if p > k {
                    } else if p < k && q == k {
                    } else if p == k {
                        if k < prev.len() {
                            if q - 1 > k {
                                lemma_lex_trans(x.0@, prev[k as int].0@, prev[q - 1].0@);
                            }
                        }
                    }
                }
                vstd::seq_lib::to_multiset_insert(prev, k as int, x);
                let sub1 = v@.take(i + 1);
                assert(sub1.drop_last() =~= v@.take(i as int));
                assert(sub1 =~= v@.take(i as int).push(v@[i as int]));
                vstd::seq_lib::to_multiset_build(v@.take(i as int), v@[i as int]);
            }
            i += 1;
        }
        proof {
            assert(v@.take(n as int) =~= v@);
            vstd::seq_lib::to_multiset_len(out@);
            vstd::seq_lib::to_multiset_len(v@);
        }
        out
    }
}

/// One persisted line: the path, a tab, the Parquet name, a newline.
pub open spec fn spec_tsv_line(e: (String, String)) -> Seq<char> {
    e.0@ + seq!['\t'] + e.1@ + seq!['\n']
}

/// The persisted text of an entry list, line by line.
pub open spec fn spec_tsv_of(entries: Seq<(String, String)>) -> Seq<char>
    decreases entries.len(),
{
    if entries.len() == 0 {
        Seq::<char>::empty()
    } else {
        spec_tsv_of(entries.drop_last()) + spec_tsv_line(entries.last())
    }
}

/// Render an entry list as the persisted tab-separated text.
pub fn tsv_render(entries: &Vec<(String, String)>) -> (out: String)
    ensures
        out@ == spec_tsv_of(entries@),
{
    let n: usize = entries.len();
    let mut out = String::new();
    let mut i: usize = 0;
    while i < n
        invariant
            n == entries@.len(),
            i <= n,
            out@ == spec_tsv_of(entries@.take(i as int)),
        decreases n - i,
    {
        out.append(entries[i].0.as_str());
        push_char(&mut out, '\t');
        out.append(entries[i].1.as_str());
        push_char(&mut out, '\n');
        proof {
            let sub1 = entries@.take(i + 1);
            assert(sub1.drop_last() =~= entries@.take(i as int));
            assert(sub1.last() == entries@[i as int]);
            assert(out@ =~= spec_tsv_of(entries@.take(i as int)) + spec_tsv_line(
                entries@[i as int],
            ));
        }
        i += 1;
    }
    proof {
        assert(entries@.take(n as int) =~= entries@);
    }
    out
}

/// Parse one line into an entry, skipping blank and malformed lines.
fn line_entry(line: &str) -> (r: Option<(String, String)>)
    ensures
        match r {
            Some(e) => spec_line_entry(line@) == Some((e.0@, e.1@)),
            None => spec_line_entry(line@) is None,
        },
{
    let t = trim(line);
    let tn: usize = t.as_str().unicode_len();
    if tn == 0 {
        return None;
    }
    let p = find_char(t.as_str(), '\t');
    if p == tn {
        return None;
    }
    let mut left = String::new();
    let mut i: usize = 0;
    while i < p
        invariant
            p <= t@.len(),
            i <= p,
            left@ =~= t@.take(p as int).take(i as int),
        decreases p - i,
    {
        proof {
            assert(t@.take(p as int)[i as int] == t@[i as int]);
        }
        push_char(&mut left, t.as_str().get_char(i));
        proof {
            assert(left@ =~= t@.take(p as int).take(i + 1));
        }
        i += 1;
    }
    proof {
        assert(t@.take(p as int).take(p as int) =~= t@.take(p as int));
    }
    let mut right = String::new();
    let mut j: usize = p + 1;
    while j < tn
        invariant
            p < tn,
            tn == t@.len(),
            p + 1 <= j <= tn,
            right@ =~= t@.skip(p + 1).take(j - p - 1),
        decreases tn - j,
    {
        proof {
            assert(t@.skip(p + 1)[j - p - 1] == t@[j as int]);
        }
        push_char(&mut right, t.as_str().get_char(j));
        proof {
            assert(right@ =~= t@.skip(p + 1).take(j - p));
        }
        j += 1;
    }
    proof {
        assert(t@.skip(p + 1).take(tn - p - 1) =~= t@.skip(p + 1));
    }
    let k = trim(left.as_str());
    let v = trim(right.as_str());
    if k.as_str().unicode_len() == 0 || v.as_str().unicode_len() == 0 {
        return None;
    }
    Some((k, v))
}

proof fn lemma_segments_split(s: Seq<char>, p: int)
    requires
        0 <= p <= s.len(),
        forall|k: int| 0 <= k < p ==> s[k] != '\n',
        p == s.len() || s[p] == '\n',
    ensures
        p == s.len() ==> spec_segments(s) == seq![s],
        p < s.len() ==> spec_segments(s) == seq![s.take(p)] + spec_segments(s.skip(p + 1)),
{
    lemma_find_at(s, '\n', p);
}

/// Parse the persisted tab-separated text into a mapping: later lines
/// with a repeated path overwrite earlier ones.
pub fn load_tsv_map(text: &str) -> (map: PathMap)
    ensures
        map.wf(),
        forall|q: Seq<char>|
            map.spec_map_get(q) == spec_last_get(
                spec_line_entries(spec_segments(text@)),
                q,
            ),
{
    let n: usize = text.unicode_len();
    let mut map = PathMap::new();
    let mut seg_start: usize = 0;
    let mut i: usize = 0;
    let mut cur = String::new();
    let ghost mut done: Seq<Seq<char>> = Seq::<Seq<char>>::empty();
    proof {
        assert(text@.skip(0) =~= text@);
        assert(spec_line_entries(done) =~= Seq::<(Seq<char>, Seq<char>)>::empty());
    }
    while i < n
        invariant
            n == text@.len(),
            seg_start <= i <= n,
            cur@ == text@.subrange(seg_start as int, i as int),
            forall|k: int| seg_start <= k < i ==> text@[k] != '\n',
            spec_segments(text@) == done + spec_segments(text@.skip(seg_start as int)),
            map.wf(),
            forall|q: Seq<char>|
                map.spec_map_get(q) == spec_last_get(spec_line_entries(done), q),
        decreases n - i,
    {
        let c = text.get_char(i);
        if c == '\n' {
            let ghost old_entries = spec_line_entries(done);
            match line_entry(cur.as_str()) {
                Some(e) => {
                    let ghost ek = e.0@;
                    let ghost ev = e.1@;
                    map.insert(e.0, e.1);
                    proof {
                        lemma_entries_push(done, cur@);
                        let ent2 = old_entries.push((ek, ev));
                        assert(ent2.drop_last() =~= old_entries);
                        assert(ent2.last() == (ek, ev));
                        assert(spec_line_entries(done.push(cur@)) == ent2);
                        assert forall|q: Seq<char>| map.spec_map_get(q) == spec_last_get(
                            ent2,
                            q,
                        ) by {
                            if q == ek {
                                assert(spec_last_get(ent2, q) == Some(ev));
                            } else {
                                assert(spec_last_get(ent2, q) == spec_last_get(old_entries, q));
                            }
                        }
                    }
                },
                None => {
                    proof {
                        lemma_entries_push(done, cur@);
                    }
                },
            }
            proof {
                let rest = text@.skip(seg_start as int);
                let p = i - seg_start;
                assert(forall|k: int| 0 <= k < p ==> rest[k] == text@[seg_start + k]);
                assert(rest[p] == text@[i as int]);
                lemma_segments_split(rest, p);
                assert(rest.take(p) =~= cur@);
                assert(rest.skip(p + 1) =~= text@.skip(i + 1));
                let done2 = done.push(cur@);
                assert(done + spec_segments(rest) =~= done2 + spec_segments(text@.skip(i + 1)))
                    by {
                    assert(spec_segments(rest) =~= seq![cur@] + spec_segments(
                        text@.skip(i + 1),
                    ));
                }
            }
            proof {
                done = done.push(cur@);
            }
            cur = String::new();
            seg_start = i + 1;
        } else {
            push_char(&mut cur, c);
            proof {
                assert(cur@ =~= text@.subrange(seg_start as int, i + 1));
            }
        }
        i += 1;
    }
    let ghost old_entries = spec_line_entries(done);
    match line_entry(cur.as_str()) {
        Some(e) => {
            let ghost ek = e.0@;
            let ghost ev = e.1@;
            map.insert(e.0, e.1);
            proof {
                lemma_entries_push(done, cur@);
                let ent2 = old_entries.push((ek, ev));
                assert(ent2.drop_last() =~= old_entries);
                assert(ent2.last() == (ek, ev));
                assert(spec_line_entries(done.push(cur@)) == ent2);
                assert forall|q: Seq<char>| map.spec_map_get(q) == spec_last_get(ent2, q) by {
                    if q == ek {
                        assert(spec_last_get(ent2, q) == Some(ev));
                    } else {
                        assert(spec_last_get(ent2, q) == spec_last_get(old_entries, q));
                    }
                }
            }
        },
        None => {
            proof {
                lemma_entries_push(done, cur@);
            }
        },
    }
    proof {
        let rest = text@.skip(seg_start as int);
        assert(forall|k: int|
            0 <= k < rest.len() ==> rest[k] == text@[seg_start + k] && rest[k] != '\n');
        lemma_segments_split(rest, rest.len() as int);
        assert(rest =~= cur@);
        assert(spec_segments(text@) =~= done.push(cur@));
    }
    map
}

proof fn lemma_entries_push(lines: Seq<Seq<char>>, line: Seq<char>)
    ensures
        spec_line_entries(lines.push(line)) == match spec_line_entry(line) {
            Some(e) => spec_line_entries(lines).push(e),
            None => spec_line_entries(lines),
        },
{
    let u = lines.push(line);
    assert(u.drop_last() =~= lines);
    assert(u.last() == line);
}

} // verus!
