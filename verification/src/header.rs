use vstd::prelude::*;

use crate::cells::{spec_cell_text, cell_to_text, Cell};
use crate::text::{dec_u64, push_char, spec_dec, str_eq, to_owned_string};

verus! {

/// Whether a character counts as alphanumeric for header sanitation.
/// The classification is Unicode-wide and depends on the character
/// alone; it is pinned down only where the sanitizer's callers need it.
pub uninterp spec fn is_alnum_char(c: char) -> bool;

/// Relies on `char::is_alphanumeric`: a pure classification of the
/// character; among the ASCII characters, exactly the letters and
/// digits are alphanumeric.
#[verifier::external_body]
fn char_is_alphanumeric(c: char) -> (r: bool)
    ensures
        r == is_alnum_char(c),
        (97 <= c as u32 <= 122) || (65 <= c as u32 <= 90) || (48 <= c as u32 <= 57) ==> r,
        (c as u32) < 128 && !((97 <= c as u32 <= 122) || (65 <= c as u32 <= 90) || (48 <= c as u32
            <= 57)) ==> !r,
{
    c.is_alphanumeric()
}

/// A header name with every non-alphanumeric character replaced by an
/// underscore.
pub open spec fn spec_sanitize(s: Seq<char>) -> Seq<char> {
    s.map_values(
        |c: char|
            if is_alnum_char(c) {
                c
            } else {
                '_'
            },
    )
}

/// An ASCII letter or digit.
pub open spec fn ascii_alnum_char(c: char) -> bool {
    (97 <= c as u32 <= 122) || (65 <= c as u32 <= 90) || (48 <= c as u32 <= 57)
}

/// Sanitize one header name. Over the ASCII range the result is fixed
/// outright: letters and digits stay, everything else becomes an
/// underscore; outside ASCII the classification is the trusted
/// `is_alnum_char`.
pub fn sanitize_col_name(raw: &str) -> (r: String)
    ensures
        r@ == spec_sanitize(raw@),
        forall|k: int|
            0 <= k < raw@.len() ==> (ascii_alnum_char(#[trigger] raw@[k]) ==> r@[k] == raw@[k])
                && ((raw@[k] as u32) < 128 && !ascii_alnum_char(raw@[k]) ==> r@[k] == '_'),
{
    let n: usize = raw.unicode_len();
    let mut out = String::new();
    let mut i: usize = 0;
    while i < n
        invariant
            n == raw@.len(),
            i <= n,
            out@ =~= spec_sanitize(raw@.take(i as int)),
            forall|k: int|
                0 <= k < i ==> (ascii_alnum_char(#[trigger] raw@[k]) ==> out@[k] == raw@[k]) && ((
                raw@[k] as u32) < 128 && !ascii_alnum_char(raw@[k]) ==> out@[k] == '_'),
        decreases n - i,
    {
        let c = raw.get_char(i);
        if char_is_alphanumeric(c) {
            push_char(&mut out, c);
        } else {
            push_char(&mut out, '_');
        }
        proof {
            assert(out@ =~= spec_sanitize(raw@.take(i + 1)));
        }
        i += 1;
    }
    proof {
        assert(raw@.take(n as int) =~= raw@);
    }
    out
}

/// The raw name of header cell `i`: its text, or `col_<i>` when the
/// text is empty.
pub open spec fn spec_raw_name(c: Cell, i: nat) -> Seq<char> {
    if spec_cell_text(c).len() == 0 {
        "col_"@ + spec_dec(i)
    } else {
        spec_cell_text(c)
    }
}

/// The sanitized base names of a header row, before deduplication.
pub open spec fn spec_base_names(header: Seq<Cell>) -> Seq<Seq<char>> {
    Seq::new(header.len(), |i: int| spec_sanitize(spec_raw_name(header[i], i as nat)))
}

/// How many of the first `upto` names equal `x`.
pub open spec fn occ_count(names: Seq<Seq<char>>, upto: int, x: Seq<char>) -> nat
    decreases upto,
{
    if upto <= 0 {
        0
    } else {
        occ_count(names, upto - 1, x) + if names[upto - 1] == x {
            1nat
        } else {
            0nat
        }
    }
}

/// The deduplicated names: the first occurrence of a base name keeps
/// it bare; the k-th repeat gets `_<k>` appended.
pub open spec fn spec_dedup(names: Seq<Seq<char>>) -> Seq<Seq<char>> {
    Seq::new(
        names.len(),
        |i: int|
            {
                let k = occ_count(names, i, names[i]);
                if k == 0 {
                    names[i]
                } else {
                    names[i] + seq!['_'] + spec_dec(k)
                }
            },
    )
}

/// The views of a list of strings.
pub open spec fn names_of(v: Seq<String>) -> Seq<Seq<char>> {
    v.map_values(|s: String| s@)
}

/// Count earlier occurrences of `cols[i]` among `cols[0..i]`.
fn count_before(cols: &Vec<String>, i: usize) -> (k: usize)
    requires
        i < cols@.len(),
    ensures
        k == occ_count(names_of(cols@), i as int, cols@[i as int]@),
{
    let mut k: usize = 0;
    let mut j: usize = 0;
    while j < i
        invariant
            i < cols@.len(),
            j <= i,
            k <= j,
            k == occ_count(names_of(cols@), j as int, cols@[i as int]@),
        decreases i - j,
    {
        if str_eq(cols[j].as_str(), cols[i].as_str()) {
            k += 1;
        }
        j += 1;
    }
    k
}

/// Deduplicate sanitized header names by occurrence index.
pub fn dedup_headers(cols: &Vec<String>) -> (out: Vec<String>)
    ensures
        out@.len() == cols@.len(),
        names_of(out@) == spec_dedup(names_of(cols@)),
{
    let n: usize = cols.len();
    let mut out: Vec<String> = Vec::new();
    let mut i: usize = 0;
    while i < n
        invariant
            n == cols@.len(),
            i <= n,
            out@.len() == i,
            forall|j: int| 0 <= j < i ==> out@[j]@ == spec_dedup(names_of(cols@))[j],
        decreases n - i,
    {
        let k = count_before(cols, i);
        if k == 0 {
            out.push(cols[i].clone());
        } else {
            let mut name = cols[i].clone();
            push_char(&mut name, '_');
            let suffix = dec_u64(k as u64);
            name.append(suffix.as_str());
            proof {
                assert(name@ =~= cols@[i as int]@ + seq!['_'] + spec_dec(k as nat));
            }
            out.push(name);
        }
        i += 1;
    }
    proof {
        assert(names_of(out@) =~= spec_dedup(names_of(cols@)));
    }
    out
}

/// Facts about decimal numerals: nonempty, digits only, and no
/// leading zero for positive values.
pub proof fn lemma_dec_shape(n: nat)
    ensures
        spec_dec(n).len() >= 1,
        forall|k: int| 0 <= k < spec_dec(n).len() ==> 48 <= (#[trigger] spec_dec(n)[k]) as u32 <= 57,
        n >= 1 ==> spec_dec(n)[0] as u32 != 48,
    decreases n,
{
    if n < 10 {
        assert(spec_dec(n) == seq![((48 + n) as u8) as char]);
        assert((((48 + n) as u8) as char) as u32 == 48 + n);
    } else {
        lemma_dec_shape(n / 10);
        assert(spec_dec(n) == spec_dec(n / 10).push(((48 + n % 10) as u8) as char));
        assert((((48 + n % 10) as u8) as char) as u32 == 48 + n % 10);
    }
}

/// Decimal numerals are injective.
pub proof fn lemma_dec_injective(a: nat, b: nat)
    requires
        spec_dec(a) == spec_dec(b),
    ensures
        a == b,
    decreases a + b,
{
    lemma_dec_shape(a);
    lemma_dec_shape(b);
    if a < 10 && b < 10 {
        assert(spec_dec(a)[0] == spec_dec(b)[0]);
        assert((((48 + a) as u8) as char) as u32 == 48 + a);
        assert((((48 + b) as u8) as char) as u32 == 48 + b);
    } else if a < 10 {
        lemma_dec_shape(b / 10);
        assert(spec_dec(b).len() >= 2);
        assert(false);
    } else if b < 10 {
        lemma_dec_shape(a / 10);
        assert(spec_dec(a).len() >= 2);
        assert(false);
    } else {
        let la = spec_dec(a);
        assert(la.last() == ((48 + a % 10) as u8) as char);
        assert(la.last() == ((48 + b % 10) as u8) as char);
        assert((((48 + a % 10) as u8) as char) as u32 == 48 + a % 10);
        assert((((48 + b % 10) as u8) as char) as u32 == 48 + b % 10);
        assert(a % 10 == b % 10);
        assert(spec_dec(a).drop_last() == spec_dec(a / 10));
        assert(spec_dec(b).drop_last() == spec_dec(b / 10));
        lemma_dec_injective(a / 10, b / 10);
        assert(a == 10 * (a / 10) + a % 10);
        assert(b == 10 * (b / 10) + b % 10);
    }
}

/// Counting occurrences grows along the prefix, and strictly past a
/// position that holds the counted name.
pub proof fn lemma_occ_grows(names: Seq<Seq<char>>, i: int, j: int, x: Seq<char>)
    requires
        0 <= i <= j,
    ensures
        occ_count(names, i, x) <= occ_count(names, j, x),
        i < j && 0 <= i < names.len() && names[i] == x ==> occ_count(names, i, x) < occ_count(
            names,
            j,
            x,
        ),
    decreases j - i,
{
    if i < j {
        lemma_occ_grows(names, i + 1, j, x);
    }
}

/// A nonempty run of decimal digits without a leading zero.
pub open spec fn plain_digits(d: Seq<char>) -> bool {
    d.len() >= 1 && (forall|k: int| 0 <= k < d.len() ==> 48 <= (#[trigger] d[k]) as u32 <= 57)
        && d[0] as u32 != 48
}

/// No base name is another base name with `_<digits>` appended. This
/// is the one family of header rows on which occurrence-indexed
/// deduplication could collide (a sheet with base names `a_1`, `a`,
/// `a` would map the repeated `a` to the existing `a_1`).
pub open spec fn suffix_free(names: Seq<Seq<char>>) -> bool {
    forall|i: int, j: int, d: Seq<char>|
        0 <= i < names.len() && 0 <= j < names.len() && plain_digits(d) ==> names[i] != names[j]
            + seq!['_'] + d
}

proof fn lemma_cross_prefix(n1: Seq<char>, d1: Seq<char>, n2: Seq<char>, d2: Seq<char>) -> (x: Seq<
    char,
>)
    requires
        plain_digits(d1),
        plain_digits(d2),
        n1 + seq!['_'] + d1 == n2 + seq!['_'] + d2,
        n1.len() < n2.len(),
    ensures
        plain_digits(x),
        n2 == n1 + seq!['_'] + x,
{
    let s = n1 + seq!['_'] + d1;
    assert(s.len() == n1.len() + 1 + d1.len());
    assert(s.len() == n2.len() + 1 + d2.len());
    assert(forall|p: int| 0 <= p < n2.len() ==> #[trigger] n2[p] == s[p]);
    assert(s[n1.len() as int] == '_');
    if n2.len() == n1.len() + 1 {
        assert(s[n1.len() as int + 1] == d1[0]);
        assert(s[n2.len() as int] == '_');
        assert(('_') as u32 == 95);
        assert(false);
    }
    assert(n2.len() >= n1.len() + 2);
    let x = d1.take(n2.len() - n1.len() - 1);
    assert(forall|k: int|
        0 <= k < x.len() ==> #[trigger] x[k] == d1[k] && s[n1.len() + 1 + k] == d1[k]);
    assert(x[0] == d1[0]);
    assert(plain_digits(x));
    assert(n2 =~= n1 + seq!['_'] + x) by {
        assert(forall|p: int|
            0 <= p < n1.len() ==> #[trigger] n2[p] == s[p] && s[p] == (n1 + seq!['_'] + x)[p]);
        assert(n2[n1.len() as int] == '_');
        assert(forall|k: int|
            0 <= k < x.len() ==> #[trigger] n2[n1.len() + 1 + k] == s[n1.len() + 1 + k]);
    }
    x
}

/// Header uniqueness: on a header row whose sanitized base names are
/// free of numeric-suffix collisions, deduplication yields pairwise
/// distinct column names — the map from header positions to final
/// names is injective.
pub proof fn lemma_dedup_unique(names: Seq<Seq<char>>)
    requires
        suffix_free(names),
    ensures
        forall|i: int, j: int|
            0 <= i < j < names.len() ==> spec_dedup(names)[i] != spec_dedup(names)[j],
{
    let out = spec_dedup(names);
    assert forall|i: int, j: int| 0 <= i < j < names.len() implies out[i] != out[j] by {
        let ki = occ_count(names, i, names[i]);
        let kj = occ_count(names, j, names[j]);
        lemma_dec_shape(ki);
        lemma_dec_shape(kj);
        if ki == 0 && kj == 0 {
            if out[i] == out[j] {
                assert(names[i] == names[j]);
                lemma_occ_grows(names, i, j, names[j]);
                assert(false);
            }
        } else if ki == 0 {
            assert(plain_digits(spec_dec(kj)));
            assert(names[i] != names[j] + seq!['_'] + spec_dec(kj));
        } else if kj == 0 {
            assert(plain_digits(spec_dec(ki)));
            assert(names[j] != names[i] + seq!['_'] + spec_dec(ki));
        } else {
            if out[i] == out[j] {
                let s1 = names[i] + seq!['_'] + spec_dec(ki);
                let s2 = names[j] + seq!['_'] + spec_dec(kj);
                assert(s1 == s2);
                if names[i].len() == names[j].len() {
                    assert(names[i] =~= names[j]) by {
                        assert(forall|p: int|
                            0 <= p < names[i].len() ==> #[trigger] names[i][p] == s1[p]
                                && #[trigger] names[j][p] == s2[p]);
                    }
                    lemma_occ_grows(names, i, j, names[j]);
                    assert(kj > ki);
                    assert(spec_dec(ki) =~= s1.skip(names[i].len() as int + 1));
                    assert(spec_dec(kj) =~= s2.skip(names[j].len() as int + 1));
                    lemma_dec_injective(ki, kj);
                    assert(false);
                } else if names[i].len() < names[j].len() {
                    let x = lemma_cross_prefix(names[i], spec_dec(ki), names[j], spec_dec(kj));
                    assert(false);
                } else {
                    let x = lemma_cross_prefix(names[j], spec_dec(kj), names[i], spec_dec(ki));
                    assert(false);
                }
            }
        }
    }
}

/// The finished header names of a header row: text coerced, empty
/// cells named by position, everything sanitized, duplicates resolved
/// by occurrence index.
pub open spec fn spec_headers(header: Seq<Cell>) -> Seq<Seq<char>> {
    spec_dedup(spec_base_names(header))
}

/// Header uniqueness at the row level: when a header row's sanitized
/// base names are free of numeric-suffix collisions, the finished
/// column names are pairwise distinct.
pub proof fn lemma_headers_unique(header: Seq<Cell>)
    requires
        suffix_free(spec_base_names(header)),
    ensures
        forall|i: int, j: int|
            0 <= i < j < spec_headers(header).len() ==> spec_headers(header)[i] != spec_headers(
                header,
            )[j],
{
    lemma_dedup_unique(spec_base_names(header));
}

/// Produce the column names of a header row.
pub fn header_names(header: &Vec<Cell>) -> (out: Vec<String>)
    ensures
        out@.len() == header@.len(),
        names_of(out@) == spec_headers(header@),
{
    let n: usize = header.len();
    let mut base: Vec<String> = Vec::new();
    let mut i: usize = 0;
    while i < n
        invariant
            n == header@.len(),
            i <= n,
            base@.len() == i,
            forall|j: int| 0 <= j < i ==> base@[j]@ == spec_base_names(header@)[j],
        decreases n - i,
    {
        let text = cell_to_text(&header[i]);
        let raw: String = if text.as_str().is_empty() {
            let mut nm = to_owned_string("col_");
            let idx = dec_u64(i as u64);
            nm.append(idx.as_str());
            nm
        } else {
            text
        };
        let s = sanitize_col_name(raw.as_str());
        base.push(s);
        i += 1;
    }
    proof {
        assert(names_of(base@) =~= spec_base_names(header@));
    }
    let out = dedup_headers(&base);
    out
}

} // verus!
