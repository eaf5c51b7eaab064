use vstd::prelude::*;

use crate::cells::ColType;
use crate::config::{ComputedColumn, Dataset, TransformConfig};
use crate::header::names_of;
use crate::text::{push_char, str_eq, to_owned_string};

verus! {

/// Parts joined by a separator: empty for no parts, and one separator
/// between neighbours otherwise.
pub open spec fn spec_join(parts: Seq<Seq<char>>, sep: Seq<char>) -> Seq<char>
    decreases parts.len(),
{
    if parts.len() == 0 {
        Seq::<char>::empty()
    } else if parts.len() == 1 {
        parts[0]
    } else {
        spec_join(parts.drop_last(), sep) + sep + parts.last()
    }
}

/// Join string parts with a separator.
pub fn join(parts: &Vec<String>, sep: &str) -> (out: String)
    ensures
        out@ == spec_join(names_of(parts@), sep@),
{
    let n: usize = parts.len();
    let mut out = String::new();
    let mut i: usize = 0;
    while i < n
        invariant
            n == parts@.len(),
            i <= n,
            out@ == spec_join(names_of(parts@).take(i as int), sep@),
        decreases n - i,
    {
        if i > 0 {
            out.append(sep);
        }
        out.append(parts[i].as_str());
        proof {
            let all = names_of(parts@);
            let sub1 = all.take(i + 1);
            assert(sub1.drop_last() =~= all.take(i as int));
            assert(sub1.last() == all[i as int]);
            if i == 0 {
                assert(out@ =~= all[0]);
            }
        }
        i += 1;
    }
    proof {
        assert(names_of(parts@).take(n as int) =~= names_of(parts@));
    }
    out
}

/// A name wrapped in double quotes.
pub open spec fn spec_quoted(name: Seq<char>) -> Seq<char> {
    seq!['"'] + name + seq!['"']
}

/// Wrap a name in double quotes.
pub fn quote_ident(name: &str) -> (out: String)
    ensures
        out@ == spec_quoted(name@),
{
    let mut out = String::new();
    push_char(&mut out, '"');
    out.append(name);
    push_char(&mut out, '"');
    proof {
        assert(out@ =~= spec_quoted(name@));
    }
    out
}

/// The engine type name of an inferred column type; a column that
/// stayed unknown is loaded as text.
pub open spec fn spec_type_name(t: ColType) -> Seq<char> {
    match t {
        ColType::Bool => "BOOLEAN"@,
        ColType::Int => "BIGINT"@,
        ColType::Double => "DOUBLE"@,
        ColType::Text | ColType::Unknown => "TEXT"@,
    }
}

/// The engine type name of a column type.
pub fn engine_type_name(t: ColType) -> (r: &'static str)
    ensures
        r@ == spec_type_name(t),
{
    match t {
        ColType::Bool => "BOOLEAN",
        ColType::Int => "BIGINT",
        ColType::Double => "DOUBLE",
        ColType::Text | ColType::Unknown => "TEXT",
    }
}

/// One column definition of the staging table: the quoted name, a
/// space, and the engine type.
pub open spec fn spec_col_def(c: Seq<char>, t: ColType) -> Seq<char> {
    spec_quoted(c) + seq![' '] + spec_type_name(t)
}

/// The `CREATE TABLE` statement of the staging table.
pub open spec fn spec_create_table(cols: Seq<Seq<char>>, types: Seq<ColType>) -> Seq<char> {
    "CREATE TABLE raw ("@ + spec_join(
        Seq::new(cols.len(), |i: int| spec_col_def(cols[i], types[i])),
        ", "@,
    ) + ")"@
}

/// Build the `CREATE TABLE` statement for the staging table from the
/// header names and the inferred types.
pub fn create_table_sql(cols: &Vec<String>, types: &Vec<ColType>) -> (out: String)
    requires
        cols@.len() == types@.len(),
    ensures
        out@ == spec_create_table(names_of(cols@), types@),
{
    let n: usize = cols.len();
    let mut parts: Vec<String> = Vec::new();
    let mut i: usize = 0;
    while i < n
        invariant
            n == cols@.len(),
            n == types@.len(),
            i <= n,
            parts@.len() == i,
            forall|j: int|
                0 <= j < i ==> parts@[j]@ == spec_col_def(cols@[j]@, types@[j]),
        decreases n - i,
    {
        let mut part = quote_ident(cols[i].as_str());
        push_char(&mut part, ' ');
        part.append(engine_type_name(types[i]));
        proof {
            assert(part@ =~= spec_col_def(cols@[i as int]@, types@[i as int]));
        }
        parts.push(part);
        i += 1;
    }
    let body = join(&parts, ", ");
    let mut out = to_owned_string("CREATE TABLE raw (");
    out.append(body.as_str());
    out.append(")");
    proof {
        assert(names_of(parts@) =~= Seq::new(
            names_of(cols@).len(),
            |i: int| spec_col_def(names_of(cols@)[i], types@[i]),
        ));
    }
    out
}

/// First rename of a column, if the transform provides one.
pub open spec fn spec_rename_lookup(rename: Seq<(String, String)>, c: Seq<char>) -> Option<
    Seq<char>,
>
    decreases rename.len(),
{
    if rename.len() == 0 {
        None
    } else if rename[0].0@ == c {
        Some(rename[0].1@)
    } else {
        spec_rename_lookup(rename.drop_first(), c)
    }
}

/// Look a column's alias up in the rename list.
fn rename_lookup<'a>(rename: &'a Vec<(String, String)>, c: &str) -> (r: Option<&'a String>)
    ensures
        match r {
            Some(a) => spec_rename_lookup(rename@, c@) == Some(a@),
            None => spec_rename_lookup(rename@, c@) is None,
        },
{
    let n: usize = rename.len();
    let mut i: usize = 0;
    proof {
        assert(rename@.skip(0) =~= rename@);
    }
    while i < n
        invariant
            n == rename@.len(),
            i <= n,
            spec_rename_lookup(rename@, c@) == spec_rename_lookup(rename@.skip(i as int), c@),
        decreases n - i,
    {
        proof {
            assert(rename@.skip(i as int)[0] == rename@[i as int]);
        }
        if str_eq(rename[i].0.as_str(), c) {
            return Some(&rename[i].1);
        }
        proof {
            assert(rename@.skip(i as int).drop_first() =~= rename@.skip(i + 1));
        }
        i += 1;
    }
    proof {
        assert(rename@.skip(n as int) =~= Seq::<(String, String)>::empty());
    }
    None
}

/// One projection entry: the quoted column, with `AS "<alias>"` when a
/// rename applies.
pub open spec fn spec_select_part(rename: Seq<(String, String)>, c: Seq<char>) -> Seq<char> {
    match spec_rename_lookup(rename, c) {
        Some(a) => spec_quoted(c) + " AS "@ + spec_quoted(a),
        None => spec_quoted(c),
    }
}

/// One computed entry: the raw expression, `AS`, and the quoted name.
pub open spec fn spec_computed_part(c: ComputedColumn) -> Seq<char> {
    c.expr@ + " AS "@ + spec_quoted(c.name@)
}

/// The projection list of a transform: the selected columns (or `*`),
/// then the computed columns.
pub open spec fn spec_select_parts(t: TransformConfig) -> Seq<Seq<char>> {
    let base: Seq<Seq<char>> = match t.select {
        Some(cols) => Seq::new(cols@.len(), |i: int| spec_select_part(t.rename@, cols@[i]@)),
        None => seq!["*"@],
    };
    let comp: Seq<Seq<char>> = match t.computed {
        Some(cs) => Seq::new(cs@.len(), |i: int| spec_computed_part(cs@[i])),
        None => Seq::<Seq<char>>::empty(),
    };
    base + comp
}

/// The views of a filter list, empty when absent.
pub open spec fn spec_filters(t: TransformConfig) -> Seq<Seq<char>> {
    match t.filters {
        Some(fs) => names_of(fs@),
        None => Seq::<Seq<char>>::empty(),
    }
}

/// The rewrite query of a transform against the staging table.
pub open spec fn spec_transform_query(t: TransformConfig) -> Seq<char> {
    let head: Seq<char> = if t.distinct == Some(true) {
        "SELECT DISTINCT "@
    } else {
        "SELECT "@
    };
    let tail: Seq<char> = if spec_filters(t).len() > 0 {
        " FROM raw WHERE "@ + spec_join(spec_filters(t), " AND "@)
    } else {
        " FROM raw"@
    };
    head + spec_join(spec_select_parts(t), ", "@) + tail
}

/// Build the rewrite query of a transform.
pub fn transform_query(t: &TransformConfig) -> (out: String)
    ensures
        out@ == spec_transform_query(*t),
{
    let ghost base_spec: Seq<Seq<char>> = match &t.select {
        Some(cols) => Seq::new(cols@.len(), |i: int| spec_select_part(t.rename@, cols@[i]@)),
        None => seq!["*"@],
    };
    let mut parts: Vec<String> = Vec::new();
    match &t.select {
        Some(cols) => {
            let n: usize = cols.len();
            let mut i: usize = 0;
            while i < n
                invariant
                    n == cols@.len(),
                    i <= n,
                    parts@.len() == i,
                    forall|j: int|
                        0 <= j < i ==> parts@[j]@ == spec_select_part(t.rename@, cols@[j]@),
                decreases n - i,
            {
                let part: String = match rename_lookup(&t.rename, cols[i].as_str()) {
                    Some(alias) => {
                        let mut p = quote_ident(cols[i].as_str());
                        p.append(" AS ");
                        let q = quote_ident(alias.as_str());
                        p.append(q.as_str());
                        proof {
                            assert(p@ =~= spec_select_part(t.rename@, cols@[i as int]@));
                        }
                        p
                    },
                    None => quote_ident(cols[i].as_str()),
                };
                parts.push(part);
                i += 1;
            }
        },
        None => {
            parts.push(to_owned_string("*"));
        },
    }
    proof {
        assert(names_of(parts@) =~= base_spec);
    }
    let ghost base_len = parts@.len();
    match &t.computed {
        Some(cs) => {
            let n: usize = cs.len();
            let mut i: usize = 0;
            while i < n
                invariant
                    n == cs@.len(),
                    i <= n,
                    parts@.len() == base_len + i,
                    names_of(parts@) =~= base_spec + Seq::new(
                        i as nat,
                        |j: int| spec_computed_part(cs@[j]),
                    ),
                decreases n - i,
            {
                let mut p = to_owned_string(cs[i].expr.as_str());
                p.append(" AS ");
                let q = quote_ident(cs[i].name.as_str());
                p.append(q.as_str());
                proof {
                    assert(p@ =~= spec_computed_part(cs@[i as int]));
                }
                let ghost prev = parts@;
                parts.push(p);
                proof {
                    assert(names_of(parts@) =~= names_of(prev).push(
                        spec_computed_part(cs@[i as int]),
                    ));
                    assert(names_of(parts@) =~= base_spec + Seq::new(
                        (i + 1) as nat,
                        |j: int| spec_computed_part(cs@[j]),
                    ));
                }
                i += 1;
            }
        },
        None => {},
    }
    proof {
        assert(names_of(parts@) =~= spec_select_parts(*t));
    }
    let body = join(&parts, ", ");
    let mut out: String = if matches!(t.distinct, Some(true)) {
        to_owned_string("SELECT DISTINCT ")
    } else {
        to_owned_string("SELECT ")
    };
    out.append(body.as_str());
    let has_filters: bool = match &t.filters {
        Some(fs) => fs.len() > 0,
        None => false,
    };
    if has_filters {
        out.append(" FROM raw WHERE ");
        match &t.filters {
            Some(fs) => {
                let w = join(fs, " AND ");
                out.append(w.as_str());
            },
            None => {},
        }
    } else {
        out.append(" FROM raw");
    }
    out
}

/// The default query when no transform applies.
pub fn default_query() -> (out: String)
    ensures
        out@ == "SELECT * FROM raw"@,
{
    to_owned_string("SELECT * FROM raw")
}

/// A path with backslashes normalized to forward slashes, as embedded
/// in SQL literals.
pub open spec fn spec_normalize_slashes(s: Seq<char>) -> Seq<char> {
    s.map_values(
        |c: char|
            if c == '\\' {
                '/'
            } else {
                c
            },
    )
}

/// Normalize a path's separators for embedding in a SQL literal.
pub fn normalize_slashes(s: &str) -> (out: String)
    ensures
        out@ == spec_normalize_slashes(s@),
{
    let n: usize = s.unicode_len();
    let mut out = String::new();
    let mut i: usize = 0;
    while i < n
        invariant
            n == s@.len(),
            i <= n,
            out@ =~= spec_normalize_slashes(s@.take(i as int)),
        decreases n - i,
    {
        let c = s.get_char(i);
        if c == '\\' {
            push_char(&mut out, '/');
        } else {
            push_char(&mut out, c);
        }
        proof {
            assert(out@ =~= spec_normalize_slashes(s@.take(i + 1)));
        }
        i += 1;
    }
    proof {
        assert(s@.take(n as int) =~= s@);
    }
    out
}

/// The engine thread budget, clamped to `[1, 32]`.
pub open spec fn spec_clamp_threads(t: int) -> int {
    if t < 1 {
        1
    } else if t > 32 {
        32
    } else {
        t
    }
}

/// The `PRAGMA threads` statement for a clamped thread budget.
pub fn pragma_threads_sql(threads: usize) -> (out: String)
    ensures
        out@ == "PRAGMA threads="@ + crate::text::spec_dec(spec_clamp_threads(threads as int) as nat),
{
    let clamped: usize = if threads < 1 {
        1
    } else if threads > 32 {
        32
    } else {
        threads
    };
    let mut out = to_owned_string("PRAGMA threads=");
    let d = crate::text::dec_u64(clamped as u64);
    out.append(d.as_str());
    out
}

/// The statement materializing the final table from the rewrite query.
pub fn create_final_sql(query: &str) -> (out: String)
    ensures
        out@ == "CREATE TABLE t AS "@ + query@,
{
    let mut out = to_owned_string("CREATE TABLE t AS ");
    out.append(query);
    out
}

/// The statement dropping a leftover final table.
pub fn drop_final_sql() -> (out: String)
    ensures
        out@ == "DROP TABLE IF EXISTS t"@,
{
    to_owned_string("DROP TABLE IF EXISTS t")
}

/// The Parquet emission statement for the final table, with the
/// output path's separators normalized.
pub fn copy_sql(parquet_out: &str) -> (out: String)
    ensures
        out@ == "COPY t TO '"@ + spec_normalize_slashes(parquet_out@)
            + "' (FORMAT PARQUET, COMPRESSION SNAPPY)"@,
{
    let mut out = to_owned_string("COPY t TO '");
    let p = normalize_slashes(parquet_out);
    out.append(p.as_str());
    out.append("' (FORMAT PARQUET, COMPRESSION SNAPPY)");
    out
}

/// The substring `sub` occurs in `s` at position `i`.
pub open spec fn has_sub_at(s: Seq<char>, sub: Seq<char>, i: int) -> bool {
    0 <= i && i + sub.len() <= s.len() && s.subrange(i, i + sub.len()) == sub
}

/// The substring `sub` occurs somewhere in `s`.
pub open spec fn spec_contains_sub(s: Seq<char>, sub: Seq<char>) -> bool {
    exists|i: int| has_sub_at(s, sub, i)
}

/// Substring search, character by character.
pub fn contains_sub(s: &str, sub: &str) -> (r: bool)
    ensures
        r == spec_contains_sub(s@, sub@),
{
    let n: usize = s.unicode_len();
    let m: usize = sub.unicode_len();
    if m > n {
        return false;
    }
    let mut i: usize = 0;
    while i <= n - m
        invariant
            n == s@.len(),
            m == sub@.len(),
            m <= n,
            i <= n - m + 1,
            forall|p: int| 0 <= p < i ==> !has_sub_at(s@, sub@, p),
        decreases n + 1 - m - i,
    {
        let mut j: usize = 0;
        let mut hit: bool = true;
        while j < m
            invariant
                n == s@.len(),
                m == sub@.len(),
                i + m <= n,
                j <= m,
                hit <==> (forall|q: int| 0 <= q < j ==> s@[i + q] == sub@[q]),
            decreases m - j,
        {
            if s.get_char(i + j) != sub.get_char(j) {
                hit = false;
            }
            j += 1;
        }
        if hit {
            proof {
                assert(s@.subrange(i as int, i + m) =~= sub@);
                assert(has_sub_at(s@, sub@, i as int));
            }
            return true;
        }
        proof {
            if has_sub_at(s@, sub@, i as int) {
                assert(forall|q: int|
                    0 <= q < m ==> #[trigger] s@.subrange(i as int, i + m)[q] == s@[i + q]);
                assert(false);
            }
        }
        i += 1;
    }
    proof {
        if spec_contains_sub(s@, sub@) {
            let p = choose|p: int| has_sub_at(s@, sub@, p);
            assert(!has_sub_at(s@, sub@, p));
        }
    }
    false
}

/// Why the batch front end could not build a statement.
#[derive(Clone, Copy, Debug, PartialEq, Eq, Structural)]
pub enum SqlError {
    NoInputFile,
}

/// One rename entry of the batch projection: `old AS new`.
pub open spec fn spec_rename_part(p: (String, String)) -> Seq<char> {
    p.0@ + " AS "@ + p.1@
}

/// The selected columns of a batch dataset, empty when absent.
pub open spec fn sel_parts(d: Dataset) -> Seq<Seq<char>> {
    match d.select {
        Some(cols) => names_of(cols@),
        None => Seq::<Seq<char>>::empty(),
    }
}

/// The rename entries of a batch dataset as projection parts.
pub open spec fn ren_parts(d: Dataset) -> Seq<Seq<char>> {
    Seq::new(d.rename@.len(), |i: int| spec_rename_part(d.rename@[i]))
}

/// The computed expressions of a batch dataset, empty when absent.
pub open spec fn comp_parts(d: Dataset) -> Seq<Seq<char>> {
    match d.computed {
        Some(cs) => names_of(cs@),
        None => Seq::<Seq<char>>::empty(),
    }
}

/// The projection entries of a batch dataset: selected columns, then
/// rename pairs as `old AS new`, then raw computed expressions.
pub open spec fn spec_legacy_columns(d: Dataset) -> Seq<Seq<char>> {
    sel_parts(d) + ren_parts(d) + comp_parts(d)
}

/// The projection list of a batch dataset, `*` when nothing is named.
pub open spec fn spec_legacy_select(d: Dataset) -> Seq<char> {
    if spec_legacy_columns(d).len() == 0 {
        "*"@
    } else {
        spec_join(spec_legacy_columns(d), ", "@)
    }
}

/// Build the projection list of a batch dataset.
pub fn build_select_clause(d: &Dataset) -> (out: String)
    ensures
        out@ == spec_legacy_select(*d),
{
    let mut parts: Vec<String> = Vec::new();
    match &d.select {
        Some(cols) => {
            let n: usize = cols.len();
            let mut i: usize = 0;
            while i < n
                invariant
                    n == cols@.len(),
                    i <= n,
                    parts@.len() == i,
                    forall|j: int| 0 <= j < i ==> parts@[j]@ == cols@[j]@,
                decreases n - i,
            {
                parts.push(cols[i].clone());
                i += 1;
            }
        },
        None => {},
    }
    proof {
        assert(names_of(parts@) =~= sel_parts(*d));
    }
    let rn: usize = d.rename.len();
    let mut i: usize = 0;
    while i < rn
        invariant
            rn == d.rename@.len(),
            i <= rn,
            parts@.len() == sel_parts(*d).len() + i,
            names_of(parts@) =~= sel_parts(*d) + ren_parts(*d).take(i as int),
        decreases rn - i,
    {
        let mut p = to_owned_string(d.rename[i].0.as_str());
        p.append(" AS ");
        p.append(d.rename[i].1.as_str());
        proof {
            assert(p@ =~= spec_rename_part(d.rename@[i as int]));
            assert(p@ == ren_parts(*d)[i as int]);
        }
        let ghost prev = parts@;
        parts.push(p);
        proof {
            assert(names_of(parts@) =~= names_of(prev).push(ren_parts(*d)[i as int]));
            assert(names_of(parts@) =~= sel_parts(*d) + ren_parts(*d).take(i + 1));
        }
        i += 1;
    }
    proof {
        assert(ren_parts(*d).take(rn as int) =~= ren_parts(*d));
    }
    match &d.computed {
        Some(cs) => {
            let cn: usize = cs.len();
            let mut k: usize = 0;
            while k < cn
                invariant
                    cn == cs@.len(),
                    k <= cn,
                    parts@.len() == sel_parts(*d).len() + ren_parts(*d).len() + k,
                    names_of(parts@) =~= sel_parts(*d) + ren_parts(*d) + names_of(cs@).take(
                        k as int,
                    ),
                decreases cn - k,
            {
                let ghost prev = parts@;
                parts.push(cs[k].clone());
                proof {
                    assert(names_of(parts@) =~= names_of(prev).push(cs@[k as int]@));
                    assert(names_of(parts@) =~= sel_parts(*d) + ren_parts(*d) + names_of(
                        cs@,
                    ).take(k + 1));
                }
                k += 1;
            }
            proof {
                assert(names_of(cs@).take(cs@.len() as int) =~= names_of(cs@));
            }
        },
        None => {},
    }
    proof {
        assert(names_of(parts@) =~= spec_legacy_columns(*d));
    }
    if parts.len() == 0 {
        to_owned_string("*")
    } else {
        join(&parts, ", ")
    }
}

/// The `WHERE` clause of a batch dataset, empty when no filters are
/// configured.
pub open spec fn spec_legacy_where(d: Dataset) -> Seq<char> {
    match d.filters {
        Some(fs) => if fs@.len() > 0 {
            "WHERE "@ + spec_join(names_of(fs@), " AND "@)
        } else {
            Seq::<char>::empty()
        },
        None => Seq::<char>::empty(),
    }
}

/// Build the `WHERE` clause of a batch dataset.
pub fn build_where_clause(d: &Dataset) -> (out: String)
    ensures
        out@ == spec_legacy_where(*d),
{
    match &d.filters {
        Some(fs) => {
            if fs.len() > 0 {
                let mut out = to_owned_string("WHERE ");
                let w = join(fs, " AND ");
                out.append(w.as_str());
                out
            } else {
                String::new()
            }
        },
        None => String::new(),
    }
}

/// One per-file select of the batch union: the projection, the file
/// read, and the (possibly empty) `WHERE` clause after one space.
pub open spec fn spec_legacy_file_select(
    sel: Seq<char>,
    wc: Seq<char>,
    file: Seq<char>,
    distinct: bool,
) -> Seq<char> {
    let head: Seq<char> = if distinct {
        "SELECT DISTINCT "@
    } else {
        "SELECT "@
    };
    head + sel + " FROM read_excel_auto('"@ + file + "') "@ + wc
}

/// The whole statement body of a batch dataset over its input files.
pub open spec fn spec_legacy_sql(d: Dataset, files: Seq<Seq<char>>) -> Seq<char> {
    let sel = spec_legacy_select(d);
    let wc = spec_legacy_where(d);
    let distinct = d.distinct == Some(true);
    if spec_contains_sub(d.dataset_type@, "_multi"@) {
        let union = spec_join(
            Seq::new(files.len(), |i: int| spec_legacy_file_select(sel, wc, files[i], false)),
            " UNION ALL "@,
        );
        if distinct {
            "SELECT DISTINCT * FROM ("@ + union + ")"@
        } else {
            union
        }
    } else {
        spec_legacy_file_select(sel, wc, files[0], distinct)
    }
}

/// Build the statement body of a batch dataset: a union over every
/// file in multi form, a single select otherwise. A single-form
/// dataset with no input file is refused.
pub fn build_sql(d: &Dataset, files: &Vec<String>) -> (r: Result<String, SqlError>)
    ensures
        match r {
            Ok(s) => s@ == spec_legacy_sql(*d, names_of(files@)) && (files@.len() > 0
                || spec_contains_sub(d.dataset_type@, "_multi"@)),
            Err(e) => e == SqlError::NoInputFile && files@.len() == 0 && !spec_contains_sub(
                d.dataset_type@,
                "_multi"@,
            ),
        },
{
    let sel = build_select_clause(d);
    let wc = build_where_clause(d);
    let distinct: bool = matches!(d.distinct, Some(true));
    let is_multi = contains_sub(d.dataset_type.as_str(), "_multi");
    if is_multi {
        let n: usize = files.len();
        let mut parts: Vec<String> = Vec::new();
        let mut i: usize = 0;
        while i < n
            invariant
                n == files@.len(),
                i <= n,
                sel@ == spec_legacy_select(*d),
                wc@ == spec_legacy_where(*d),
                parts@.len() == i,
                forall|j: int|
                    0 <= j < i ==> parts@[j]@ == spec_legacy_file_select(
                        spec_legacy_select(*d),
                        spec_legacy_where(*d),
                        files@[j]@,
                        false,
                    ),
            decreases n - i,
        {
            let mut p = to_owned_string("SELECT ");
            p.append(sel.as_str());
            p.append(" FROM read_excel_auto('");
            p.append(files[i].as_str());
            p.append("') ");
            p.append(wc.as_str());
            proof {
                assert(p@ =~= spec_legacy_file_select(sel@, wc@, files@[i as int]@, false));
            }
            parts.push(p);
            i += 1;
        }
        let union = join(&parts, " UNION ALL ");
        proof {
            assert(names_of(parts@) =~= Seq::new(
                names_of(files@).len(),
                |i: int| spec_legacy_file_select(
                    spec_legacy_select(*d),
                    spec_legacy_where(*d),
                    names_of(files@)[i],
                    false,
                ),
            ));
        }
        if distinct {
            let mut out = to_owned_string("SELECT DISTINCT * FROM (");
            out.append(union.as_str());
            out.append(")");
            Ok(out)
        } else {
            Ok(union)
        }
    } else {
        if files.len() == 0 {
            return Err(SqlError::NoInputFile);
        }
        let mut out: String = if distinct {
            to_owned_string("SELECT DISTINCT ")
        } else {
            to_owned_string("SELECT ")
        };
        out.append(sel.as_str());
        out.append(" FROM read_excel_auto('");
        out.append(files[0].as_str());
        out.append("') ");
        out.append(wc.as_str());
        Ok(out)
    }
}

/// The engine thread budget of the batch front end: seven tenths of
/// the logical cores, rounded up.
pub fn legacy_thread_budget(cores: usize) -> (r: usize)
    requires
        cores < 100000,
    ensures
        r == (7 * cores + 9) / 10,
        10 * r >= 7 * cores,
        cores >= 1 ==> r >= 1,
{
    (7 * cores + 9) / 10
}

/// The batch front end's Parquet emission statement around a whole
/// statement body.
pub fn legacy_copy_sql(body: &str, out_file: &str) -> (out: String)
    ensures
        out@ == "COPY ("@ + body@ + ") TO '"@ + out_file@
            + "' (FORMAT PARQUET, COMPRESSION ZSTD)"@,
{
    let mut out = to_owned_string("COPY (");
    out.append(body);
    out.append(") TO '");
    out.append(out_file);
    out.append("' (FORMAT PARQUET, COMPRESSION ZSTD)");
    out
}

} // verus!
