use vstd::prelude::*;

use crate::text::{dec_i64, dec_pad_u64, push_char, spec_dec_int, spec_dec_pad, to_owned_string};

verus! {

/// ASCII letters and digits, the characters a Parquet file stem keeps.
pub open spec fn ascii_alnum(c: char) -> bool {
    (97 <= c as u32 <= 122) || (65 <= c as u32 <= 90) || (48 <= c as u32 <= 57)
}

/// A stem with every character outside ASCII letters and digits
/// replaced by an underscore.
pub open spec fn spec_sanitize_stem(s: Seq<char>) -> Seq<char> {
    s.map_values(
        |c: char|
            if ascii_alnum(c) {
                c
            } else {
                '_'
            },
    )
}

/// Sanitize an input file stem for embedding in the Parquet name.
pub fn sanitize_stem(s: &str) -> (out: String)
    ensures
        out@ == spec_sanitize_stem(s@),
{
    let n: usize = s.unicode_len();
    let mut out = String::new();
    let mut i: usize = 0;
    while i < n
        invariant
            n == s@.len(),
            i <= n,
            out@ =~= spec_sanitize_stem(s@.take(i as int)),
        decreases n - i,
    {
        let c = s.get_char(i);
        let u: u32 = c as u32;
        if (97 <= u && u <= 122) || (65 <= u && u <= 90) || (48 <= u && u <= 57) {
            push_char(&mut out, c);
        } else {
            push_char(&mut out, '_');
        }
        proof {
            assert(out@ =~= spec_sanitize_stem(s@.take(i + 1)));
        }
        i += 1;
    }
    proof {
        assert(s@.take(n as int) =~= s@);
    }
    out
}

/// A wall-clock reading in the tool's fixed UTC+07:00 offset, broken
/// into calendar fields.
#[derive(Clone, Copy, Debug, PartialEq, Eq, Structural)]
pub struct TimeFields {
    pub year: i32,
    pub month: u8,
    pub day: u8,
    pub hour: u8,
    pub minute: u8,
    pub second: u8,
}

impl TimeFields {
    /// Field ranges of a calendar reading.
    pub open spec fn wf(self) -> bool {
        1 <= self.month <= 12 && 1 <= self.day <= 31 && self.hour <= 23 && self.minute <= 59
            && self.second <= 59
    }
}

/// Relies on the time crate: `OffsetDateTime::now_utc` converted with
/// `to_offset(UtcOffset::from_hms(7, 0, 0))`, read through `day`,
/// `month`, `year`, `hour`, `minute` and `second`. The reading depends
/// on the clock, so nothing is promised beyond the documented field
/// ranges.
#[verifier::external_body]
pub fn now_vn_fields() -> (f: TimeFields)
    ensures
        f.wf(),
{
    let vn = time::UtcOffset::from_hms(7, 0, 0).unwrap();
    let now = time::OffsetDateTime::now_utc().to_offset(vn);
    TimeFields {
        year: now.year(),
        month: now.month() as u8,
        day: now.day(),
        hour: now.hour(),
        minute: now.minute(),
        second: now.second(),
    }
}

/// A year zero-padded to four digits, the sign leading when negative.
pub open spec fn spec_year4(y: int) -> Seq<char> {
    if y >= 0 {
        spec_dec_pad(y as nat, 4)
    } else {
        seq!['-'] + spec_dec_pad((-y) as nat, 3)
    }
}

/// Render a year as the tool's four-digit field.
pub fn year4(y: i32) -> (out: String)
    ensures
        out@ == spec_year4(y as int),
{
    if y >= 0 {
        dec_pad_u64(y as u64, 4)
    } else {
        let m: u64 = (-(y as i64)) as u64;
        let mut out = String::new();
        push_char(&mut out, '-');
        let d = dec_pad_u64(m, 3);
        out.append(d.as_str());
        proof {
            assert(out@ =~= seq!['-'] + spec_dec_pad(m as nat, 3));
        }
        out
    }
}

/// The timestamp field of a Parquet name: `DDMMYYYY_HHMMSS` in the
/// tool's fixed offset.
pub open spec fn spec_stamp_string(f: TimeFields) -> Seq<char> {
    spec_dec_pad(f.day as nat, 2) + spec_dec_pad(f.month as nat, 2) + spec_year4(f.year as int)
        + seq!['_'] + spec_dec_pad(f.hour as nat, 2) + spec_dec_pad(f.minute as nat, 2)
        + spec_dec_pad(f.second as nat, 2)
}

/// Render the timestamp field of a Parquet name.
pub fn stamp_string(f: &TimeFields) -> (out: String)
    ensures
        out@ == spec_stamp_string(*f),
{
    let mut out = dec_pad_u64(f.day as u64, 2);
    let m = dec_pad_u64(f.month as u64, 2);
    out.append(m.as_str());
    let y = year4(f.year);
    out.append(y.as_str());
    push_char(&mut out, '_');
    let hh = dec_pad_u64(f.hour as u64, 2);
    out.append(hh.as_str());
    let mi = dec_pad_u64(f.minute as u64, 2);
    out.append(mi.as_str());
    let ss = dec_pad_u64(f.second as u64, 2);
    out.append(ss.as_str());
    proof {
        assert(out@ =~= spec_stamp_string(*f));
    }
    out
}

/// The Parquet file name of one extraction: the sanitized input stem,
/// the wall-clock timestamp, and the input's mtime, which together
/// keep names distinct across re-extractions and runs.
pub open spec fn spec_parquet_name(stem: Seq<char>, f: TimeFields, mtime_unix_ms: int) -> Seq<
    char,
> {
    spec_sanitize_stem(stem) + seq!['_'] + spec_stamp_string(f) + seq!['_'] + spec_dec_int(
        mtime_unix_ms,
    ) + ".parquet"@
}

/// Build the Parquet file name for an input stem at a clock reading.
pub fn build_parquet_name(stem: &str, f: &TimeFields, mtime_unix_ms: i64) -> (out: String)
    ensures
        out@ == spec_parquet_name(stem@, *f, mtime_unix_ms as int),
{
    let mut out = sanitize_stem(stem);
    push_char(&mut out, '_');
    let ts = stamp_string(f);
    out.append(ts.as_str());
    push_char(&mut out, '_');
    let mt = dec_i64(mtime_unix_ms);
    out.append(mt.as_str());
    out.append(".parquet");
    proof {
        assert(out@ =~= spec_parquet_name(stem@, *f, mtime_unix_ms as int));
    }
    out
}

/// A decimal digit.
pub open spec fn is_digit_char(c: char) -> bool {
    48 <= c as u32 <= 57
}

/// The given character, in either letter case.
pub open spec fn is_letter_ci(c: char, lower: char) -> bool {
    c == lower || c as u32 == lower as u32 - 32
}

/// The file name ends in `_DD_MM_YYYY.<ext>` with a workbook
/// extension, letters of the extension in either case.
pub open spec fn spec_admin_date_ok(s: Seq<char>) -> bool {
    let n = s.len() as int;
    n >= 16 && s[n - 5] == '.' && is_letter_ci(s[n - 4], 'x') && is_letter_ci(s[n - 3], 'l')
        && is_letter_ci(s[n - 2], 's') && (is_letter_ci(s[n - 1], 'x') || is_letter_ci(
        s[n - 1],
        'b',
    )) && s[n - 16] == '_' && is_digit_char(s[n - 15]) && is_digit_char(s[n - 14]) && s[n - 13]
        == '_' && is_digit_char(s[n - 12]) && is_digit_char(s[n - 11]) && s[n - 10] == '_'
        && is_digit_char(s[n - 9]) && is_digit_char(s[n - 8]) && is_digit_char(s[n - 7])
        && is_digit_char(s[n - 6])
}

/// The `YYYY-MM-DD` rendering of the date embedded in such a name.
pub open spec fn spec_admin_date(s: Seq<char>) -> Seq<char> {
    let n = s.len() as int;
    s.subrange(n - 9, n - 5) + seq!['-'] + s.subrange(n - 12, n - 10) + seq!['-'] + s.subrange(
        n - 15,
        n - 13,
    )
}

fn digit_at(s: &str, i: usize) -> (r: bool)
    requires
        i < s@.len(),
    ensures
        r == is_digit_char(s@[i as int]),
{
    let u: u32 = s.get_char(i) as u32;
    48 <= u && u <= 57
}

fn letter_ci_at(s: &str, i: usize, lower: char) -> (r: bool)
    requires
        i < s@.len(),
    ensures
        r == is_letter_ci(s@[i as int], lower),
{
    let c = s.get_char(i);
    c == lower || (c as u32) + 32 == lower as u32
}

/// Read the day embedded in an input file name of the form
/// `..._DD_MM_YYYY.xlsx` (or `.xlsb`, letters in either case), as
/// `YYYY-MM-DD`.
pub fn day_from_filename(name: &str) -> (r: Option<String>)
    ensures
        match r {
            Some(d) => spec_admin_date_ok(name@) && d@ == spec_admin_date(name@),
            None => !spec_admin_date_ok(name@),
        },
{
    let n: usize = name.unicode_len();
    if n < 16 {
        return None;
    }
    let ok: bool = letter_ci_at(name, n - 4, 'x') && letter_ci_at(name, n - 3, 'l')
        && letter_ci_at(name, n - 2, 's') && (letter_ci_at(name, n - 1, 'x') || letter_ci_at(
        name,
        n - 1,
        'b',
    )) && name.get_char(n - 5) == '.' && name.get_char(n - 16) == '_' && digit_at(name, n - 15)
        && digit_at(name, n - 14) && name.get_char(n - 13) == '_' && digit_at(name, n - 12)
        && digit_at(name, n - 11) && name.get_char(n - 10) == '_' && digit_at(name, n - 9)
        && digit_at(name, n - 8) && digit_at(name, n - 7) && digit_at(name, n - 6);
    if !ok {
        return None;
    }
    let mut out = String::new();
    push_char(&mut out, name.get_char(n - 9));
    push_char(&mut out, name.get_char(n - 8));
    push_char(&mut out, name.get_char(n - 7));
    push_char(&mut out, name.get_char(n - 6));
    push_char(&mut out, '-');
    push_char(&mut out, name.get_char(n - 12));
    push_char(&mut out, name.get_char(n - 11));
    push_char(&mut out, '-');
    push_char(&mut out, name.get_char(n - 15));
    push_char(&mut out, name.get_char(n - 14));
    proof {
        assert(out@ =~= spec_admin_date(name@));
    }
    Some(out)
}

} // verus!
