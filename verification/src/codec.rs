use vstd::prelude::*;

use crate::text::{dec_i64, dec_u64, push_char, spec_dec, spec_dec_int, str_eq, to_owned_string};
use crate::types::{find_stamp, stamps_unique, CacheMeta, FileStamp, RunMode};

verus! {

/// A range of a text splits into its two halves.
proof fn lemma_subrange_concat(s: Seq<char>, a: int, b: int, c: int)
    requires
        0 <= a <= b <= c <= s.len(),
    ensures
        s.subrange(a, c) == s.subrange(a, b) + s.subrange(b, c),
{
    assert(s.subrange(a, c) =~= s.subrange(a, b) + s.subrange(b, c));
}

/// A lowercase hexadecimal digit.
pub open spec fn spec_hex_digit(n: nat) -> char {
    if n < 10 {
        ((48 + n) as u8) as char
    } else {
        ((87 + n) as u8) as char
    }
}

/// How one character stands inside a JSON string literal: quote and
/// backslash escaped, the five short escapes for their control
/// characters, other control characters as `\u00XX`, everything else
/// as itself.
pub open spec fn spec_char_escape(c: char) -> Seq<char> {
    if c == '"' {
        seq!['\\', '"']
    } else if c == '\\' {
        seq!['\\', '\\']
    } else if c as u32 == 8 {
        seq!['\\', 'b']
    } else if c as u32 == 12 {
        seq!['\\', 'f']
    } else if c == '\n' {
        seq!['\\', 'n']
    } else if c == '\r' {
        seq!['\\', 'r']
    } else if c == '\t' {
        seq!['\\', 't']
    } else if (c as u32) < 32 {
        let hi = spec_hex_digit((c as u32 / 16) as nat);
        let lo = spec_hex_digit((c as u32 % 16) as nat);
        seq!['\\', 'u', '0', '0', hi, lo]
    } else {
        seq![c]
    }
}

/// A string with every character escaped for a JSON literal.
pub open spec fn spec_json_escape(s: Seq<char>) -> Seq<char>
    decreases s.len(),
{
    if s.len() == 0 {
        Seq::<char>::empty()
    } else {
        spec_json_escape(s.drop_last()) + spec_char_escape(s.last())
    }
}

/// A JSON string literal.
pub open spec fn spec_json_string(s: Seq<char>) -> Seq<char> {
    seq!['"'] + spec_json_escape(s) + seq!['"']
}

fn hex_digit(n: u32) -> (c: char)
    requires
        n < 16,
    ensures
        c == spec_hex_digit(n as nat),
{
    if n < 10 {
        ((48 + n) as u8) as char
    } else {
        ((87 + n) as u8) as char
    }
}

/// Escape a string for embedding in a JSON literal.
pub fn json_escape(s: &str) -> (out: String)
    ensures
        out@ == spec_json_escape(s@),
{
    let n: usize = s.unicode_len();
    let mut out = String::new();
    let mut i: usize = 0;
    while i < n
        invariant
            n == s@.len(),
            i <= n,
            out@ == spec_json_escape(s@.take(i as int)),
        decreases n - i,
    {
        let c = s.get_char(i);
        let u: u32 = c as u32;
        if c == '"' {
            push_char(&mut out, '\\');
            push_char(&mut out, '"');
        } else if c == '\\' {
            push_char(&mut out, '\\');
            push_char(&mut out, '\\');
        } else if u == 8 {
            push_char(&mut out, '\\');
            push_char(&mut out, 'b');
        } else if u == 12 {
            push_char(&mut out, '\\');
            push_char(&mut out, 'f');
        } else if c == '\n' {
            push_char(&mut out, '\\');
            push_char(&mut out, 'n');
        } else if c == '\r' {
            push_char(&mut out, '\\');
            push_char(&mut out, 'r');
        } else if c == '\t' {
            push_char(&mut out, '\\');
            push_char(&mut out, 't');
        } else if u < 32 {
            push_char(&mut out, '\\');
            push_char(&mut out, 'u');
            push_char(&mut out, '0');
            push_char(&mut out, '0');
            push_char(&mut out, hex_digit(u / 16));
            push_char(&mut out, hex_digit(u % 16));
        } else {
            push_char(&mut out, c);
        }
        proof {
            let sub1 = s@.take(i + 1);
            assert(sub1.drop_last() =~= s@.take(i as int));
            assert(sub1.last() == s@[i as int]);
            assert(out@ =~= spec_json_escape(s@.take(i as int)) + spec_char_escape(
                s@[i as int],
            ));
        }
        i += 1;
    }
    proof {
        assert(s@.take(n as int) =~= s@);
    }
    out
}

/// Render a JSON string literal.
pub fn json_string(s: &str) -> (out: String)
    ensures
        out@ == spec_json_string(s@),
{
    let mut out = String::new();
    push_char(&mut out, '"');
    let e = json_escape(s);
    out.append(e.as_str());
    push_char(&mut out, '"');
    proof {
        assert(out@ =~= spec_json_string(s@));
    }
    out
}

/// The mode as the manifest spells it.
pub open spec fn spec_mode_name(mode: RunMode) -> Seq<char> {
    match mode {
        RunMode::Single => "Single"@,
        RunMode::Multi => "Multi"@,
    }
}

/// One stamp as a pretty-printed JSON object, indented as the third
/// nesting level of the manifest.
pub open spec fn spec_stamp_json(st: FileStamp) -> Seq<char> {
    "{\n      \"path\": "@ + spec_json_string(st.path@) + ",\n      \"size\": "@ + spec_dec(
        st.size as nat,
    ) + ",\n      \"mtime_unix_ms\": "@ + spec_dec_int(st.mtime_unix_ms as int)
        + ",\n      \"quick_hash\": "@ + spec_json_string(st.quick_hash@) + "\n    }"@
}

/// One stamps entry: the path as the key, then the stamp object.
pub open spec fn spec_stamp_entry(st: FileStamp) -> Seq<char> {
    "    "@ + spec_json_string(st.path@) + ": "@ + spec_stamp_json(st)
}

/// The stamps mapping, entries in list order, `{}` when empty.
pub open spec fn spec_stamps_json(stamps: Seq<FileStamp>) -> Seq<char> {
    if stamps.len() == 0 {
        "{}"@
    } else {
        "{\n"@ + crate::sqlgen::spec_join(
            Seq::new(stamps.len(), |i: int| spec_stamp_entry(stamps[i])),
            ",\n"@,
        ) + "\n  }"@
    }
}

/// The whole manifest document, exactly as persisted: a pretty-printed
/// object holding the dataset, the mode, and the stamps keyed by path.
pub open spec fn spec_meta_json(meta: CacheMeta) -> Seq<char> {
    "{\n  \"dataset\": "@ + spec_json_string(meta.dataset@) + ",\n  \"mode\": "@
        + spec_json_string(spec_mode_name(meta.mode)) + ",\n  \"stamps\": "@ + spec_stamps_json(
        meta.stamps@,
    ) + "\n}"@
}

fn stamp_json(st: &FileStamp) -> (out: String)
    ensures
        out@ == spec_stamp_json(*st),
{
    let mut out = to_owned_string("{\n      \"path\": ");
    let p = json_string(st.path.as_str());
    out.append(p.as_str());
    out.append(",\n      \"size\": ");
    let sz = dec_u64(st.size);
    out.append(sz.as_str());
    out.append(",\n      \"mtime_unix_ms\": ");
    let mt = dec_i64(st.mtime_unix_ms);
    out.append(mt.as_str());
    out.append(",\n      \"quick_hash\": ");
    let qh = json_string(st.quick_hash.as_str());
    out.append(qh.as_str());
    out.append("\n    }");
    out
}

fn stamp_entry(st: &FileStamp) -> (out: String)
    ensures
        out@ == spec_stamp_entry(*st),
{
    let mut out = to_owned_string("    ");
    let p = json_string(st.path.as_str());
    out.append(p.as_str());
    out.append(": ");
    let obj = stamp_json(st);
    out.append(obj.as_str());
    out
}

/// Render the manifest as its persisted JSON document.
pub fn meta_to_json(meta: &CacheMeta) -> (out: String)
    ensures
        out@ == spec_meta_json(*meta),
{
    let mut out = to_owned_string("{\n  \"dataset\": ");
    let ds = json_string(meta.dataset.as_str());
    out.append(ds.as_str());
    out.append(",\n  \"mode\": ");
    let mode_str: &'static str = match meta.mode {
        RunMode::Single => "Single",
        RunMode::Multi => "Multi",
    };
    let m = json_string(mode_str);
    out.append(m.as_str());
    proof {
        assert(spec_json_string(mode_str@) == spec_json_string(spec_mode_name(meta.mode)));
    }
    out.append(",\n  \"stamps\": ");
    let n: usize = meta.stamps.len();
    if n == 0 {
        out.append("{}");
    } else {
        let mut parts: Vec<String> = Vec::new();
        let mut i: usize = 0;
        while i < n
            invariant
                n == meta.stamps@.len(),
                i <= n,
                parts@.len() == i,
                forall|j: int|
                    0 <= j < i ==> parts@[j]@ == spec_stamp_entry(meta.stamps@[j]),
            decreases n - i,
        {
            parts.push(stamp_entry(&meta.stamps[i]));
            i += 1;
        }
        let body = crate::sqlgen::join(&parts, ",\n");
        proof {
            assert(crate::header::names_of(parts@) =~= Seq::new(
                meta.stamps@.len(),
                |j: int| spec_stamp_entry(meta.stamps@[j]),
            ));
        }
        out.append("{\n");
        out.append(body.as_str());
        out.append("\n  }");
    }
    out.append("\n}");
    out
}

/// The text `t` stands in `s` at position `pos`.
pub open spec fn starts_with_at(s: Seq<char>, pos: int, t: Seq<char>) -> bool {
    0 <= pos && pos + t.len() <= s.len() && s.subrange(pos, pos + t.len()) == t
}

/// Match a fixed piece of text at a position: succeeds exactly when
/// the piece stands there.
fn expect_lit(s: &str, pos: usize, lit: &str) -> (r: Option<usize>)
    ensures
        match r {
            Some(p2) => pos <= p2 <= s@.len() && p2 == pos + lit@.len() && s@.subrange(
                pos as int,
                p2 as int,
            ) == lit@,
            None => !starts_with_at(s@, pos as int, lit@),
        },
{
    let n: usize = s.unicode_len();
    let m: usize = lit.unicode_len();
    if pos > n || m > n - pos {
        return None;
    }
    let mut i: usize = 0;
    while i < m
        invariant
            n == s@.len(),
            m == lit@.len(),
            pos + m <= n,
            i <= m,
            forall|k: int| 0 <= k < i ==> s@[pos + k] == lit@[k],
        decreases m - i,
    {
        if s.get_char(pos + i) != lit.get_char(i) {
            proof {
                if starts_with_at(s@, pos as int, lit@) {
                    assert(s@.subrange(pos as int, pos + m)[i as int] == s@[pos + i]);
                }
            }
            return None;
        }
        i += 1;
    }
    proof {
        assert(s@.subrange(pos as int, (pos + m) as int) =~= lit@);
    }
    Some(pos + m)
}

/// Escaping a nonempty string starts with its first character's block.
proof fn lemma_escape_split_first(v: Seq<char>)
    requires
        v.len() > 0,
    ensures
        spec_json_escape(v) == spec_char_escape(v[0]) + spec_json_escape(v.drop_first()),
    decreases v.len(),
{
    if v.len() == 1 {
        assert(v.drop_last() =~= Seq::<char>::empty());
        assert(v.drop_first() =~= Seq::<char>::empty());
        assert(v.last() == v[0]);
        assert(spec_json_escape(v) =~= spec_char_escape(v[0]) + spec_json_escape(
            v.drop_first(),
        ));
    } else {
        let dl = v.drop_last();
        lemma_escape_split_first(dl);
        assert(dl[0] == v[0]);
        assert(dl.drop_first() =~= v.drop_first().drop_last());
        assert(v.drop_first().last() == v.last());
        assert(spec_json_escape(v.drop_first()) == spec_json_escape(v.drop_first().drop_last())
            + spec_char_escape(v.drop_first().last()));
        assert(spec_json_escape(v) =~= spec_char_escape(v[0]) + spec_json_escape(
            v.drop_first(),
        ));
    }
}

/// Hexadecimal digits are distinct characters.
proof fn lemma_hex_digit_inj(a: nat, b: nat)
    requires
        a < 16,
        b < 16,
        spec_hex_digit(a) == spec_hex_digit(b),
    ensures
        a == b,
{
    if a < 10 {
        assert((((48 + a) as u8) as char) as u32 == 48 + a);
    } else {
        assert((((87 + a) as u8) as char) as u32 == 87 + a);
    }
    if b < 10 {
        assert((((48 + b) as u8) as char) as u32 == 48 + b);
    } else {
        assert((((87 + b) as u8) as char) as u32 == 87 + b);
    }
}

/// No escape block begins with a bare quote.
proof fn lemma_block_head_not_quote(c: char)
    ensures
        spec_char_escape(c).len() >= 1,
        spec_char_escape(c)[0] != '"',
{
    vstd::utf8::char_u32_cast(c, c as u32);
    if c == '"' || c == '\\' || c as u32 == 8 || c as u32 == 12 || c == '\n' || c == '\r' || c
        == '\t' || (c as u32) < 32 {
    } else {
        assert(spec_char_escape(c) == seq![c]);
    }
}

/// A string body with its closing quote and the trailing text, as one
/// sequence.
pub open spec fn lit_body(x: Seq<char>, tail: Seq<char>) -> Seq<char> {
    spec_json_escape(x) + seq!['"'] + tail
}

/// Peeling the first character's block off a literal body.
proof fn lemma_lit_body_first(x: Seq<char>, tail: Seq<char>)
    requires
        x.len() > 0,
    ensures
        lit_body(x, tail) == spec_char_escape(x[0]) + lit_body(x.drop_first(), tail),
{
    lemma_escape_split_first(x);
    let ce = spec_char_escape(x[0]);
    let e2 = spec_json_escape(x.drop_first());
    vstd::seq_lib::lemma_concat_associative(ce, e2, seq!['"']);
    vstd::seq_lib::lemma_concat_associative(ce, e2 + seq!['"'], tail);
    assert((ce + e2) + seq!['"'] == ce + (e2 + seq!['"']));
    assert(((ce + e2) + seq!['"']) + tail == (ce + (e2 + seq!['"'])) + tail);
    assert((ce + (e2 + seq!['"'])) + tail == ce + ((e2 + seq!['"']) + tail));
}

/// Escape blocks are prefix-determined: when two blocks head the same
/// text, they are the same block of the same character.
proof fn lemma_first_block(a: char, b: char, p: Seq<char>, q: Seq<char>)
    requires
        spec_char_escape(a) + p == spec_char_escape(b) + q,
    ensures
        a == b,
        p == q,
{
    let ea = spec_char_escape(a);
    let eb = spec_char_escape(b);
    let w = ea + p;
    assert(w[0] == ea[0] && w[0] == eb[0]);
    vstd::utf8::char_u32_cast(a, a as u32);
    vstd::utf8::char_u32_cast(b, b as u32);
    let a_raw = !(a == '"' || a == '\\' || a as u32 == 8 || a as u32 == 12 || a == '\n' || a
        == '\r' || a == '\t' || (a as u32) < 32);
    let b_raw = !(b == '"' || b == '\\' || b as u32 == 8 || b as u32 == 12 || b == '\n' || b
        == '\r' || b == '\t' || (b as u32) < 32);
    if a_raw && b_raw {
        assert(ea == seq![a] && eb == seq![b]);
        assert(a == b);
    } else if a_raw {
        assert(eb[0] == '\\');
        assert(ea == seq![a]);
        assert(a == '\\');
        assert(false);
    } else if b_raw {
        assert(ea[0] == '\\');
        assert(eb == seq![b]);
        assert(b == '\\');
        assert(false);
    } else {
        assert(ea[0] == '\\' && eb[0] == '\\');
        assert(ea.len() >= 2 && eb.len() >= 2);
        assert(w[1] == ea[1] && w[1] == eb[1]);
        if ea[1] == 'u' {
            assert((a as u32) < 32 && a as u32 != 8 && a as u32 != 12 && a != '\n' && a != '\r'
                && a != '\t' && a != '"' && a != '\\');
            assert(eb[1] == 'u');
            assert((b as u32) < 32 && b as u32 != 8 && b as u32 != 12 && b != '\n' && b != '\r'
                && b != '\t' && b != '"' && b != '\\');
            assert(ea.len() == 6 && eb.len() == 6);
            assert(w[4] == ea[4] && w[4] == eb[4] && w[5] == ea[5] && w[5] == eb[5]);
            lemma_hex_digit_inj((a as u32 / 16) as nat, (b as u32 / 16) as nat);
            lemma_hex_digit_inj((a as u32 % 16) as nat, (b as u32 % 16) as nat);
            assert(a as u32 == b as u32);
            assert(a == b);
        } else {
            assert(eb[1] != 'u');
            assert(ea.len() == 2 && eb.len() == 2);
            assert(a == b);
        }
    }
    assert(ea == eb);
    assert((ea + p).len() == (eb + q).len());
    assert(p.len() == q.len());
    assert(p =~= q) by {
        assert(forall|k: int|
            0 <= k < p.len() ==> #[trigger] p[k] == (ea + p)[ea.len() + k]);
        assert(forall|k: int|
            0 <= k < q.len() ==> #[trigger] q[k] == (eb + q)[eb.len() + k]);
    }
}

/// A string body followed by its closing quote is prefix-determined:
/// the body and everything after the quote are fixed by the text.
proof fn lemma_string_lit_det(x: Seq<char>, y: Seq<char>, a_tail: Seq<char>, b_tail: Seq<char>)
    requires
        lit_body(x, a_tail) == lit_body(y, b_tail),
    ensures
        x == y,
        a_tail == b_tail,
    decreases x.len(),
{
    if x.len() == 0 && y.len() == 0 {
        assert(spec_json_escape(x).len() == 0 && spec_json_escape(y).len() == 0);
        assert((spec_json_escape(x) + seq!['"'] + a_tail).len() == 1 + a_tail.len());
        assert((spec_json_escape(y) + seq!['"'] + b_tail).len() == 1 + b_tail.len());
        assert(a_tail.len() == b_tail.len());
        assert forall|k: int| 0 <= k < a_tail.len() implies a_tail[k] == b_tail[k] by {
            assert(a_tail[k] == (spec_json_escape(x) + seq!['"'] + a_tail)[1 + k]);
            assert(b_tail[k] == (spec_json_escape(y) + seq!['"'] + b_tail)[1 + k]);
        }
        assert(a_tail =~= b_tail);
    } else if x.len() == 0 {
        lemma_lit_body_first(y, b_tail);
        lemma_block_head_not_quote(y[0]);
        let w = lit_body(x, a_tail);
        assert(spec_json_escape(x).len() == 0);
        assert(w[0] == '"');
        assert(lit_body(y, b_tail)[0] == spec_char_escape(y[0])[0]);
        assert(false);
    } else if y.len() == 0 {
        lemma_lit_body_first(x, a_tail);
        lemma_block_head_not_quote(x[0]);
        let w = lit_body(y, b_tail);
        assert(spec_json_escape(y).len() == 0);
        assert(w[0] == '"');
        assert(lit_body(x, a_tail)[0] == spec_char_escape(x[0])[0]);
        assert(false);
    } else {
        lemma_lit_body_first(x, a_tail);
        lemma_lit_body_first(y, b_tail);
        lemma_first_block(
            x[0],
            y[0],
            lit_body(x.drop_first(), a_tail),
            lit_body(y.drop_first(), b_tail),
        );
        lemma_string_lit_det(x.drop_first(), y.drop_first(), a_tail, b_tail);
        assert(x.len() == y.len());
        assert(x =~= y) by {
            assert(forall|k: int|
                1 <= k < x.len() ==> #[trigger] x[k] == x.drop_first()[k - 1]);
            assert(forall|k: int|
                1 <= k < y.len() ==> #[trigger] y[k] == y.drop_first()[k - 1]);
        }
    }
}

/// A parsed string body aligns with any string literal standing at the
/// same place: the literal's body extends the parsed one, block for
/// block.
proof fn lemma_escape_align(v: Seq<char>, x: Seq<char>, t_tail: Seq<char>, b_tail: Seq<char>) -> (
    x2: Seq<char>)
    requires
        spec_json_escape(v) + t_tail == lit_body(x, b_tail),
    ensures
        x == v + x2,
        t_tail == lit_body(x2, b_tail),
    decreases v.len(),
{
    if v.len() == 0 {
        assert(x =~= v + x);
        let w = spec_json_escape(v) + t_tail;
        assert(spec_json_escape(v).len() == 0);
        assert(t_tail =~= lit_body(x, b_tail)) by {
            assert(forall|k: int| 0 <= k < t_tail.len() ==> #[trigger] t_tail[k] == w[k]);
        }
        x
    } else {
        if x.len() == 0 {
            lemma_escape_split_first(v);
            vstd::seq_lib::lemma_concat_associative(
                spec_char_escape(v[0]),
                spec_json_escape(v.drop_first()),
                t_tail,
            );
            lemma_block_head_not_quote(v[0]);
            let w = lit_body(x, b_tail);
            assert(spec_json_escape(x).len() == 0);
            assert(w[0] == '"');
            assert((spec_json_escape(v) + t_tail)[0] == spec_char_escape(v[0])[0]);
            assert(false);
        }
        lemma_escape_split_first(v);
        vstd::seq_lib::lemma_concat_associative(
            spec_char_escape(v[0]),
            spec_json_escape(v.drop_first()),
            t_tail,
        );
        lemma_lit_body_first(x, b_tail);
        lemma_first_block(
            v[0],
            x[0],
            spec_json_escape(v.drop_first()) + t_tail,
            lit_body(x.drop_first(), b_tail),
        );
        let x2 = lemma_escape_align(v.drop_first(), x.drop_first(), t_tail, b_tail);
        assert(x.len() == (v + x2).len());
        assert(x =~= v + x2) by {
            assert(forall|k: int|
                1 <= k < x.len() ==> #[trigger] x[k] == x.drop_first()[k - 1]);
            assert(x.drop_first() == v.drop_first() + x2);
            assert(forall|k: int|
                1 <= k < v.len() ==> #[trigger] (v + x2)[k] == v[k] && v[k] == v.drop_first()[k
                    - 1]);
            assert(forall|k: int|
                v.len() <= k < x.len() ==> #[trigger] (v + x2)[k] == x2[k - v.len()]
                    && x.drop_first()[k - 1] == (v.drop_first() + x2)[k - 1]);
        }
        x2
    }
}

fn hex_val(c: char) -> (r: Option<u32>)
    ensures
        match r {
            Some(v) => v < 16 && spec_hex_digit(v as nat) == c,
            None => forall|v: nat| v < 16 ==> spec_hex_digit(v) != c,
        },
{
    proof {
        assert forall|v: nat| v < 16 implies (spec_hex_digit(v) == c ==> (48 <= c as u32 <= 57
            || 97 <= c as u32 <= 102)) by {
            if v < 10 {
                assert((((48 + v) as u8) as char) as u32 == 48 + v);
            } else {
                assert((((87 + v) as u8) as char) as u32 == 87 + v);
            }
        }
    }
    let u: u32 = c as u32;
    if 48 <= u && u <= 57 {
        let v = u - 48;
        proof {
            vstd::utf8::char_u32_cast(c, u);
            assert((((48 + v) as u8) as char) as u32 == 48 + v);
            assert(spec_hex_digit(v as nat) as u32 == c as u32);
            vstd::utf8::char_u32_cast(spec_hex_digit(v as nat), c as u32);
        }
        Some(v)
    } else if 97 <= u && u <= 102 {
        let v = u - 87;
        proof {
            vstd::utf8::char_u32_cast(c, u);
            assert((((87 + v) as u8) as char) as u32 == 87 + v);
            assert(spec_hex_digit(v as nat) as u32 == c as u32);
            vstd::utf8::char_u32_cast(spec_hex_digit(v as nat), c as u32);
        }
        Some(v)
    } else {
        None
    }
}

/// What remains of a string literal after a partial scan: when a
/// literal for some `x` stands at `pos` and the scan has consumed the
/// escape image of `val` after the opening quote, the rest of the
/// text is the literal body of the unscanned part of `x`.
proof fn lemma_string_tail(s: Seq<char>, pos: int, i: int, val: Seq<char>, x: Seq<char>) -> (x2:
    Seq<char>)
    requires
        0 <= pos,
        pos + 1 <= i <= s.len(),
        s[pos] == '"',
        s.subrange(pos + 1, i) == spec_json_escape(val),
        starts_with_at(s, pos, spec_json_string(x)),
    ensures
        x == val + x2,
        s.skip(i) == lit_body(x2, s.skip(pos + spec_json_string(x).len())),
    decreases 0int,
{
    let ex = spec_json_escape(x);
    let jl = spec_json_string(x).len() as int;
    assert(jl == ex.len() + 2);
    let b_tail = s.skip(pos + jl);
    let w = s.skip(pos + 1);
    assert(w =~= spec_json_escape(val) + s.skip(i)) by {
        assert(forall|k: int|
            0 <= k < i - pos - 1 ==> #[trigger] w[k] == s[pos + 1 + k] && s.subrange(
                pos + 1,
                i,
            )[k] == s[pos + 1 + k]);
        assert(forall|k: int|
            i - pos - 1 <= k < w.len() ==> #[trigger] w[k] == s[pos + 1 + k] && s.skip(i)[k - (i
                - pos - 1)] == s[pos + 1 + k]);
    }
    assert(lit_body(x, b_tail).len() == ex.len() + 1 + b_tail.len());
    assert(b_tail.len() == s.len() - pos - jl);
    assert(w.len() == lit_body(x, b_tail).len());
    assert forall|k: int| 0 <= k < w.len() implies w[k] == lit_body(x, b_tail)[k] by {
        assert(w[k] == s[pos + 1 + k]);
        if k < ex.len() {
            assert(s.subrange(pos, pos + jl)[1 + k] == s[pos + 1 + k]);
            assert(spec_json_string(x)[1 + k] == ex[k]);
            assert(lit_body(x, b_tail)[k] == ex[k]);
        } else if k == ex.len() {
            assert(s.subrange(pos, pos + jl)[jl - 1] == s[pos + jl - 1]);
            assert(spec_json_string(x)[jl - 1] == '"');
            assert(lit_body(x, b_tail)[k] == '"');
        } else {
            assert(lit_body(x, b_tail)[k] == b_tail[k - ex.len() - 1]);
            assert(b_tail[k - ex.len() - 1] == s[pos + jl + (k - ex.len() - 1)]);
        }
    }
    assert(w =~= lit_body(x, b_tail));
    let x2 = lemma_escape_align(val, x, s.skip(i), b_tail);
    x2
}

/// The head of a literal body: a closing quote for the empty part,
/// else the first character's escape block, whose shape the block's
/// kind fixes.
proof fn lemma_lit_head(x2: Seq<char>, b: Seq<char>)
    ensures
        lit_body(x2, b).len() >= 1,
        x2.len() == 0 ==> lit_body(x2, b)[0] == '"',
        x2.len() > 0 ==> lit_body(x2, b)[0] != '"',
        x2.len() > 0 && lit_body(x2, b)[0] != '\\' ==> lit_body(x2, b)[0] == x2[0] && x2[0] as u32
            >= 32,
        x2.len() > 0 && lit_body(x2, b)[0] == '\\' ==> lit_body(x2, b).len() >= 3 && (lit_body(
            x2,
            b,
        )[1] == '"' || lit_body(x2, b)[1] == '\\' || lit_body(x2, b)[1] == 'b' || lit_body(
            x2,
            b,
        )[1] == 'f' || lit_body(x2, b)[1] == 'n' || lit_body(x2, b)[1] == 'r' || lit_body(
            x2,
            b,
        )[1] == 't' || lit_body(x2, b)[1] == 'u'),
        x2.len() > 0 && lit_body(x2, b)[0] == '\\' && lit_body(x2, b)[1] == 'u' ==> lit_body(
            x2,
            b,
        ).len() >= 7 && lit_body(x2, b)[2] == '0' && lit_body(x2, b)[3] == '0' && lit_body(
            x2,
            b,
        )[4] == spec_hex_digit((x2[0] as u32 / 16) as nat) && lit_body(x2, b)[5] == spec_hex_digit(
            (x2[0] as u32 % 16) as nat,
        ) && (x2[0] as u32) < 32 && x2[0] as u32 != 8 && x2[0] as u32 != 9 && x2[0] as u32 != 10
            && x2[0] as u32 != 12 && x2[0] as u32 != 13,
{
    if x2.len() == 0 {
        assert(spec_json_escape(x2).len() == 0);
        assert(lit_body(x2, b)[0] == '"');
    } else {
        lemma_lit_body_first(x2, b);
        lemma_block_head_not_quote(x2[0]);
        let c = x2[0];
        let ce = spec_char_escape(c);
        let rest = lit_body(x2.drop_first(), b);
        assert(rest.len() >= 1) by {
            if x2.drop_first().len() == 0 {
                assert(spec_json_escape(x2.drop_first()).len() == 0);
            }
        }
        vstd::utf8::char_u32_cast(c, c as u32);
        if c == '"' || c == '\\' || c as u32 == 8 || c as u32 == 12 || c == '\n' || c == '\r'
            || c == '\t' || (c as u32) < 32 {
            assert(ce[0] == '\\');
            if (c as u32) < 32 && !(c as u32 == 8 || c as u32 == 12 || c == '\n' || c == '\r'
                || c == '\t') && c != '"' && c != '\\' {
                assert(ce.len() == 6 && ce[1] == 'u');
                assert(c as u32 != 10 && c as u32 != 13 && c as u32 != 9) by {
                    assert(('\n') as u32 == 10 && ('\r') as u32 == 13 && ('\t') as u32 == 9);
                    vstd::utf8::char_u32_cast('\n', 10);
                    vstd::utf8::char_u32_cast('\r', 13);
                    vstd::utf8::char_u32_cast('\t', 9);
                }
            } else {
                assert(ce.len() == 2);
                assert(ce[1] != 'u');
            }
        } else {
            assert(ce == seq![c]);
            assert(c as u32 >= 32);
        }
    }
}

/// The common scan state of the failure lemmas below: a quote at
/// `pos`, and the text between it and `i` the escape image of `val`.
pub open spec fn scan_state(s: Seq<char>, pos: int, i: int, val: Seq<char>) -> bool {
    0 <= pos && pos + 1 <= i <= s.len() && s[pos] == '"' && s.subrange(pos + 1, i)
        == spec_json_escape(val)
}

proof fn lemma_fail_exhausted(s: Seq<char>, pos: int, i: int, val: Seq<char>)
    requires
        scan_state(s, pos, i, val),
        i == s.len(),
    ensures
        forall|x: Seq<char>| !starts_with_at(s, pos, spec_json_string(x)),
{
    assert forall|x: Seq<char>| !starts_with_at(s, pos, spec_json_string(x)) by {
        if starts_with_at(s, pos, spec_json_string(x)) {
            let x2 = lemma_string_tail(s, pos, i, val, x);
            lemma_lit_head(x2, s.skip(pos + spec_json_string(x).len()));
            assert(s.skip(i).len() == 0);
        }
    }
}

proof fn lemma_fail_short_escape(s: Seq<char>, pos: int, i: int, val: Seq<char>)
    requires
        scan_state(s, pos, i, val),
        i + 1 == s.len(),
        s[i] == '\\',
    ensures
        forall|x: Seq<char>| !starts_with_at(s, pos, spec_json_string(x)),
{
    assert forall|x: Seq<char>| !starts_with_at(s, pos, spec_json_string(x)) by {
        if starts_with_at(s, pos, spec_json_string(x)) {
            let x2 = lemma_string_tail(s, pos, i, val, x);
            let bt = s.skip(pos + spec_json_string(x).len());
            lemma_lit_head(x2, bt);
            let tl = s.skip(i);
            assert(tl.len() == 1);
            assert(tl[0] == s[i]);
        }
    }
}

proof fn lemma_fail_bad_escape(s: Seq<char>, pos: int, i: int, val: Seq<char>, e: char)
    requires
        scan_state(s, pos, i, val),
        i + 1 < s.len(),
        s[i] == '\\',
        s[i + 1] == e,
        e != '"' && e != '\\' && e != 'b' && e != 'f' && e != 'n' && e != 'r' && e != 't' && e
            != 'u',
    ensures
        forall|x: Seq<char>| !starts_with_at(s, pos, spec_json_string(x)),
{
    assert forall|x: Seq<char>| !starts_with_at(s, pos, spec_json_string(x)) by {
        if starts_with_at(s, pos, spec_json_string(x)) {
            let x2 = lemma_string_tail(s, pos, i, val, x);
            let bt = s.skip(pos + spec_json_string(x).len());
            lemma_lit_head(x2, bt);
            let tl = s.skip(i);
            assert(tl[0] == s[i]);
            assert(tl[1] == s[i + 1]);
        }
    }
}

proof fn lemma_fail_u_form(s: Seq<char>, pos: int, i: int, val: Seq<char>)
    requires
        scan_state(s, pos, i, val),
        i + 1 < s.len(),
        s[i] == '\\',
        s[i + 1] == 'u',
        s.len() - i <= 5 || s[i + 2] != '0' || s[i + 3] != '0',
    ensures
        forall|x: Seq<char>| !starts_with_at(s, pos, spec_json_string(x)),
{
    assert forall|x: Seq<char>| !starts_with_at(s, pos, spec_json_string(x)) by {
        if starts_with_at(s, pos, spec_json_string(x)) {
            let x2 = lemma_string_tail(s, pos, i, val, x);
            let bt = s.skip(pos + spec_json_string(x).len());
            lemma_lit_head(x2, bt);
            let tl = s.skip(i);
            assert(tl[0] == s[i]);
            assert(tl[1] == s[i + 1]);
            assert(tl.len() >= 7);
            assert(tl[2] == s[i + 2]);
            assert(tl[3] == s[i + 3]);
        }
    }
}

proof fn lemma_fail_u_hex(s: Seq<char>, pos: int, i: int, val: Seq<char>, j: int)
    requires
        scan_state(s, pos, i, val),
        i + 1 < s.len(),
        s[i] == '\\',
        s[i + 1] == 'u',
        s.len() - i > 5,
        j == 4 || j == 5,
        forall|v: nat| v < 16 ==> spec_hex_digit(v) != s[i + j],
    ensures
        forall|x: Seq<char>| !starts_with_at(s, pos, spec_json_string(x)),
{
    assert forall|x: Seq<char>| !starts_with_at(s, pos, spec_json_string(x)) by {
        if starts_with_at(s, pos, spec_json_string(x)) {
            let x2 = lemma_string_tail(s, pos, i, val, x);
            let bt = s.skip(pos + spec_json_string(x).len());
            lemma_lit_head(x2, bt);
            let tl = s.skip(i);
            assert(tl[0] == s[i]);
            assert(tl[1] == s[i + 1]);
            assert(x2.len() > 0);
            assert(tl[4] == s[i + 4]);
            assert(tl[5] == s[i + 5]);
            assert((x2[0] as u32 / 16) < 16 && (x2[0] as u32 % 16) < 16);
            if j == 4 {
                assert(spec_hex_digit((x2[0] as u32 / 16) as nat) != s[i + 4]);
            } else {
                assert(spec_hex_digit((x2[0] as u32 % 16) as nat) != s[i + 5]);
            }
        }
    }
}

proof fn lemma_fail_u_noncanon(
    s: Seq<char>,
    pos: int,
    i: int,
    val: Seq<char>,
    vh: u32,
    vl: u32,
)
    requires
        scan_state(s, pos, i, val),
        i + 1 < s.len(),
        s[i] == '\\',
        s[i + 1] == 'u',
        s.len() - i > 5,
        vh < 16 && spec_hex_digit(vh as nat) == s[i + 4],
        vl < 16 && spec_hex_digit(vl as nat) == s[i + 5],
        vh * 16 + vl >= 32 || vh * 16 + vl == 8 || vh * 16 + vl == 9 || vh * 16 + vl == 10 || vh
            * 16 + vl == 12 || vh * 16 + vl == 13,
    ensures
        forall|x: Seq<char>| !starts_with_at(s, pos, spec_json_string(x)),
{
    assert forall|x: Seq<char>| !starts_with_at(s, pos, spec_json_string(x)) by {
        if starts_with_at(s, pos, spec_json_string(x)) {
            let x2 = lemma_string_tail(s, pos, i, val, x);
            let bt = s.skip(pos + spec_json_string(x).len());
            lemma_lit_head(x2, bt);
            let tl = s.skip(i);
            assert(tl[0] == s[i]);
            assert(tl[1] == s[i + 1]);
            assert(x2.len() > 0);
            assert(tl[4] == s[i + 4]);
            assert(tl[5] == s[i + 5]);
            lemma_hex_digit_inj(vh as nat, (x2[0] as u32 / 16) as nat);
            lemma_hex_digit_inj(vl as nat, (x2[0] as u32 % 16) as nat);
            assert(vh * 16 + vl == x2[0] as u32);
        }
    }
}

proof fn lemma_fail_raw_ctrl(s: Seq<char>, pos: int, i: int, val: Seq<char>, c: char)
    requires
        scan_state(s, pos, i, val),
        i < s.len(),
        s[i] == c,
        c != '"',
        c != '\\',
        (c as u32) < 32,
    ensures
        forall|x: Seq<char>| !starts_with_at(s, pos, spec_json_string(x)),
{
    assert forall|x: Seq<char>| !starts_with_at(s, pos, spec_json_string(x)) by {
        if starts_with_at(s, pos, spec_json_string(x)) {
            let x2 = lemma_string_tail(s, pos, i, val, x);
            let bt = s.skip(pos + spec_json_string(x).len());
            lemma_lit_head(x2, bt);
            let tl = s.skip(i);
            assert(tl[0] == s[i]);
        }
    }
}

/// Parse a JSON string literal in the canonical form the emitter
/// writes. Whatever parses is an exact pre-image: the consumed text is
/// the emission of the returned value. A failure means no string
/// literal at all stands at the position.
fn parse_json_string(s: &str, pos: usize) -> (r: Option<(String, usize)>)
    ensures
        match r {
            Some(p) => pos <= p.1 <= s@.len() && s@.subrange(pos as int, p.1 as int)
                == spec_json_string(p.0@),
            None => forall|x: Seq<char>| !starts_with_at(s@, pos as int, spec_json_string(x)),
        },
{
    let n: usize = s.unicode_len();
    if pos >= n || s.get_char(pos) != '"' {
        proof {
            assert forall|x: Seq<char>| !starts_with_at(s@, pos as int, spec_json_string(x)) by {
                if starts_with_at(s@, pos as int, spec_json_string(x)) {
                    assert(spec_json_string(x).len() >= 2);
                    assert(spec_json_string(x)[0] == '"');
                    assert(s@.subrange(pos as int, pos + spec_json_string(x).len() as int)[0]
                        == s@[pos as int]);
                }
            }
        }
        return None;
    }
    let mut i: usize = pos + 1;
    let mut val = String::new();
    while i < n
        invariant
            n == s@.len(),
            pos + 1 <= i <= n,
            s@[pos as int] == '"',
            s@.subrange(pos + 1, i as int) == spec_json_escape(val@),
        decreases n - i,
    {
        let c = s.get_char(i);
        if c == '"' {
            proof {
                lemma_subrange_concat(s@, pos as int, pos + 1, i + 1);
                lemma_subrange_concat(s@, pos + 1, i as int, i + 1);
                assert(s@.subrange(pos as int, pos + 1) =~= seq!['"']);
                assert(s@.subrange(i as int, i + 1) =~= seq!['"']);
            }
            return Some((val, i + 1));
        }
        let ghost old_val = val@;
        let consumed: usize;
        if c == '\\' {
            if i + 1 >= n {
                proof {
                    lemma_fail_short_escape(s@, pos as int, i as int, val@);
                }
                return None;
            }
            let e = s.get_char(i + 1);
            if e == '"' {
                push_char(&mut val, '"');
                consumed = 2;
                proof {
                    assert(s@.subrange(i as int, i + 2) =~= spec_char_escape('"'));
                }
            } else if e == '\\' {
                push_char(&mut val, '\\');
                consumed = 2;
                proof {
                    assert(s@.subrange(i as int, i + 2) =~= spec_char_escape('\\'));
                }
            } else if e == 'b' {
                push_char(&mut val, 8u8 as char);
                consumed = 2;
                proof {
                    assert(s@.subrange(i as int, i + 2) =~= spec_char_escape(8u8 as char));
                }
            } else if e == 'f' {
                push_char(&mut val, 12u8 as char);
                consumed = 2;
                proof {
                    assert(s@.subrange(i as int, i + 2) =~= spec_char_escape(12u8 as char));
                }
            } else if e == 'n' {
                push_char(&mut val, '\n');
                consumed = 2;
                proof {
                    assert(s@.subrange(i as int, i + 2) =~= spec_char_escape('\n'));
                }
            } else if e == 'r' {
                push_char(&mut val, '\r');
                consumed = 2;
                proof {
                    assert(s@.subrange(i as int, i + 2) =~= spec_char_escape('\r'));
                }
            } else if e == 't' {
                push_char(&mut val, '\t');
                consumed = 2;
                proof {
                    assert(s@.subrange(i as int, i + 2) =~= spec_char_escape('\t'));
                }
            } else if e == 'u' {
                if n - i <= 5 {
                    proof {
                        lemma_fail_u_form(s@, pos as int, i as int, val@);
                    }
                    return None;
                }
                if s.get_char(i + 2) != '0' || s.get_char(i + 3) != '0' {
                    proof {
                        lemma_fail_u_form(s@, pos as int, i as int, val@);
                    }
                    return None;
                }
                let vh = match hex_val(s.get_char(i + 4)) {
                    Some(v) => v,
                    None => {
                        proof {
                            lemma_fail_u_hex(s@, pos as int, i as int, val@, 4);
                        }
                        return None;
                    },
                };
                let vl = match hex_val(s.get_char(i + 5)) {
                    Some(v) => v,
                    None => {
                        proof {
                            lemma_fail_u_hex(s@, pos as int, i as int, val@, 5);
                        }
                        return None;
                    },
                };
                let u: u32 = vh * 16 + vl;
                // Only code points whose canonical escape is `\u00XX`
                // are accepted here: other controls have short forms.
                if u >= 32 || u == 8 || u == 9 || u == 10 || u == 12 || u == 13 {
                    proof {
                        lemma_fail_u_noncanon(s@, pos as int, i as int, val@, vh, vl);
                    }
                    return None;
                }
                let c2: char = (u as u8) as char;
                push_char(&mut val, c2);
                consumed = 6;
                proof {
                    assert(c2 as u32 == u);
                    assert(u / 16 == vh && u % 16 == vl);
                    assert(s@.subrange(i as int, i + 6) =~= spec_char_escape(c2));
                }
            } else {
                proof {
                    lemma_fail_bad_escape(s@, pos as int, i as int, val@, e);
                }
                return None;
            }
        } else {
            let u: u32 = c as u32;
            if u < 32 {
                proof {
                    lemma_fail_raw_ctrl(s@, pos as int, i as int, val@, c);
                }
                return None;
            }
            push_char(&mut val, c);
            consumed = 1;
            proof {
                assert(s@.subrange(i as int, i + 1) =~= spec_char_escape(c));
            }
        }
        proof {
            assert(val@.drop_last() =~= old_val);
            assert(spec_json_escape(val@) == spec_json_escape(old_val) + spec_char_escape(
                val@.last(),
            ));
            lemma_subrange_concat(s@, pos + 1, i as int, i + consumed);
        }
        i += consumed;
    }
    proof {
        lemma_fail_exhausted(s@, pos as int, i as int, val@);
    }
    None
}

/// A numeral stands at a position as a whole: its text is there and
/// no further digit follows it.
pub open spec fn spec_numeral_at(s: Seq<char>, pos: int, d: Seq<char>) -> bool {
    starts_with_at(s, pos, d) && (pos + d.len() == s.len() || !crate::naming::is_digit_char(
        s[pos + d.len()],
    ))
}

/// A shorter decimal numeral is a value-wise lower bound for any
/// numeral it prefixes.
proof fn lemma_dec_prefix(a: nat, b: nat)
    requires
        spec_dec(a).len() <= spec_dec(b).len(),
        spec_dec(b).take(spec_dec(a).len() as int) == spec_dec(a),
    ensures
        a <= b,
    decreases b,
{
    crate::header::lemma_dec_shape(a);
    crate::header::lemma_dec_shape(b);
    if spec_dec(a).len() == spec_dec(b).len() {
        assert(spec_dec(b).take(spec_dec(b).len() as int) =~= spec_dec(b));
        crate::header::lemma_dec_injective(a, b);
    } else {
        assert(b >= 10) by {
            if b < 10 {
                assert(spec_dec(b).len() == 1);
                assert(spec_dec(a).len() >= 1);
            }
        }
        crate::header::lemma_dec_shape(b / 10);
        assert(spec_dec(b) == spec_dec(b / 10).push(((48 + b % 10) as u8) as char));
        assert(spec_dec(b).take(spec_dec(a).len() as int) =~= spec_dec(b / 10).take(
            spec_dec(a).len() as int,
        ));
        lemma_dec_prefix(a, b / 10);
    }
}

/// Two whole numerals at the same position are the same numeral.
proof fn lemma_dec_det(s: Seq<char>, pos: int, a: nat, b: nat)
    requires
        spec_numeral_at(s, pos, spec_dec(a)),
        spec_numeral_at(s, pos, spec_dec(b)),
    ensures
        a == b,
{
    crate::header::lemma_dec_shape(a);
    crate::header::lemma_dec_shape(b);
    let la = spec_dec(a).len() as int;
    let lb = spec_dec(b).len() as int;
    if la < lb {
        assert(s.subrange(pos, pos + lb)[la] == s[pos + la]);
        assert(crate::naming::is_digit_char(spec_dec(b)[la]));
    } else if lb < la {
        assert(s.subrange(pos, pos + la)[lb] == s[pos + lb]);
        assert(crate::naming::is_digit_char(spec_dec(a)[lb]));
    } else {
        assert(spec_dec(a) =~= spec_dec(b)) by {
            assert(forall|k: int|
                0 <= k < la ==> #[trigger] s.subrange(pos, pos + la)[k] == s[pos + k]
                    && s.subrange(pos, pos + lb)[k] == s[pos + k]);
        }
        crate::header::lemma_dec_injective(a, b);
    }
}

/// When the digits scanned so far already value `v` and one more digit
/// would overflow, no whole numeral within `u64` stands at the
/// position: any numeral there would extend the scanned digits and so
/// value at least as much as the overflowing extension.
proof fn lemma_no_room_for_digit(s: Seq<char>, pos: int, i: int, v: u64, d: u64)
    requires
        0 <= pos < i <= s.len(),
        i < s.len(),
        s.subrange(pos, i) == spec_dec(v as nat),
        v >= 1,
        d <= 9,
        s[i] as u32 == 48 + d,
        v > (u64::MAX - d) / 10,
    ensures
        forall|w: u64| !spec_numeral_at(s, pos, spec_dec(w as nat)),
{
    assert forall|w: u64| !spec_numeral_at(s, pos, spec_dec(w as nat)) by {
        if spec_numeral_at(s, pos, spec_dec(w as nat)) {
            lemma_numeral_blocked(s, pos, i, v, d, w);
        }
    }
}

proof fn lemma_numeral_blocked(s: Seq<char>, pos: int, i: int, v: u64, d: u64, w: u64)
    requires
        0 <= pos < i <= s.len(),
        i < s.len(),
        s.subrange(pos, i) == spec_dec(v as nat),
        v >= 1,
        d <= 9,
        s[i] as u32 == 48 + d,
        v > (u64::MAX - d) / 10,
        spec_numeral_at(s, pos, spec_dec(w as nat)),
    ensures
        v <= (u64::MAX - d) / 10,
{
    crate::header::lemma_dec_shape(v as nat);
    crate::header::lemma_dec_shape(w as nat);
    let dv = spec_dec(v as nat);
    let dw = spec_dec(w as nat);
    let lv = dv.len() as int;
    let lw = dw.len() as int;
    assert(lv == i - pos);
    assert(forall|k: int| 0 <= k < lw ==> #[trigger] s.subrange(pos, pos + lw)[k] == s[pos + k]);
    assert(forall|k: int| 0 <= k < lv ==> #[trigger] s.subrange(pos, i)[k] == s[pos + k]);
    assert(crate::naming::is_digit_char(s[i]));
    if pos + lw <= i {
        if pos + lw == i {
            assert(false);
        } else {
            assert(s[pos + lw] == dv[lw]);
            assert(48 <= dv[lw] as u32 <= 57);
            assert(false);
        }
    }
    assert(i < pos + lw);
    assert(dv =~= dw.take(i - pos));
    let v2: nat = (v as nat) * 10 + (d as nat);
    assert(v2 >= 10) by (nonlinear_arith)
        requires
            v2 == (v as nat) * 10 + (d as nat),
            v >= 1,
    ;
    assert(v2 / 10 == v as nat && v2 % 10 == d as nat) by (nonlinear_arith)
        requires
            v2 == (v as nat) * 10 + (d as nat),
            d < 10,
    ;
    assert(spec_dec(v2) == dv.push(((48 + d) as u8) as char));
    assert(s[i] == ((48 + d) as u8) as char) by {
        assert((((48 + d) as u8) as char) as u32 == 48 + d);
        vstd::utf8::char_u32_cast(s[i], s[i] as u32);
        vstd::utf8::char_u32_cast(((48 + d) as u8) as char, (48 + d) as u32);
    }
    assert(dw[i - pos] == s[pos + (i - pos)]);
    assert(spec_dec(v2) =~= dw.take(i - pos + 1));
    lemma_dec_prefix(v2, w as nat);
    assert(v2 <= w as nat);
    let q = ((u64::MAX - d) / 10) as int;
    assert((u64::MAX - d) as int == 10 * q + ((u64::MAX - d) as int % 10));
    assert((u64::MAX - d) as int % 10 < 10);
    assert(10 * (v as int) >= 10 * (q + 1)) by (nonlinear_arith)
        requires
            v as int >= q + 1,
    ;
    assert(10 * (v as int) + (d as int) > u64::MAX as int);
    assert(false);
}

/// Parse a decimal numeral without sign or leading zero: the consumed
/// text is the numeral of the value and no digit follows it; a failure
/// means no whole numeral within `u64` stands at the position.
fn parse_u64(s: &str, pos: usize) -> (r: Option<(u64, usize)>)
    ensures
        match r {
            Some(p) => pos < p.1 <= s@.len() && s@.subrange(pos as int, p.1 as int) == spec_dec(
                p.0 as nat,
            ) && (p.1 == s@.len() || !crate::naming::is_digit_char(s@[p.1 as int])),
            None => forall|v: u64| !spec_numeral_at(s@, pos as int, spec_dec(v as nat)),
        },
{
    let n: usize = s.unicode_len();
    if pos >= n {
        proof {
            assert forall|v: u64| !spec_numeral_at(s@, pos as int, spec_dec(v as nat)) by {
                crate::header::lemma_dec_shape(v as nat);
            }
        }
        return None;
    }
    let c0 = s.get_char(pos);
    let u0: u32 = c0 as u32;
    if !(48 <= u0 && u0 <= 57) {
        proof {
            assert forall|v: u64| !spec_numeral_at(s@, pos as int, spec_dec(v as nat)) by {
                if spec_numeral_at(s@, pos as int, spec_dec(v as nat)) {
                    crate::header::lemma_dec_shape(v as nat);
                    let lv = spec_dec(v as nat).len() as int;
                    assert(s@.subrange(pos as int, pos + lv)[0] == s@[pos as int]);
                    assert(48 <= spec_dec(v as nat)[0] as u32 <= 57);
                }
            }
        }
        return None;
    }
    let d0: u64 = (u0 - 48) as u64;
    proof {
        vstd::utf8::char_u32_cast(c0, u0);
        assert((((48 + d0) as u8) as char) as u32 == 48 + d0);
        vstd::utf8::char_u32_cast(((48 + d0) as u8) as char, u0);
        assert(s@.subrange(pos as int, pos + 1) =~= seq![c0]);
        assert(s@.subrange(pos as int, pos + 1) == spec_dec(d0 as nat));
    }
    if d0 == 0 {
        // A canonical numeral has no leading zero: a digit after `0`
        // is a malformed document.
        if pos + 1 < n {
            let c1u: u32 = s.get_char(pos + 1) as u32;
            if 48 <= c1u && c1u <= 57 {
                proof {
                    assert forall|v: u64| !spec_numeral_at(s@, pos as int, spec_dec(v as nat))
                        by {
                        if spec_numeral_at(s@, pos as int, spec_dec(v as nat)) {
                            crate::header::lemma_dec_shape(v as nat);
                            let lv = spec_dec(v as nat).len() as int;
                            assert(s@.subrange(pos as int, pos + lv)[0] == s@[pos as int]);
                            assert(spec_dec(v as nat)[0] as u32 == 48);
                            assert(v == 0);
                            assert(lv == 1);
                            assert(crate::naming::is_digit_char(s@[pos + 1]));
                        }
                    }
                }
                return None;
            }
        }
        return Some((0, pos + 1));
    }
    let mut v: u64 = d0;
    let mut i: usize = pos + 1;
    while i < n
        invariant
            n == s@.len(),
            pos + 1 <= i <= n,
            1 <= v,
            s@.subrange(pos as int, i as int) == spec_dec(v as nat),
        decreases n - i,
    {
        let c = s.get_char(i);
        let u: u32 = c as u32;
        if !(48 <= u && u <= 57) {
            return Some((v, i));
        }
        let d: u64 = (u - 48) as u64;
        if v > (u64::MAX - d) / 10 {
            proof {
                lemma_no_room_for_digit(s@, pos as int, i as int, v, d);
            }
            return None;
        }
        let ghost vg = v;
        v = v * 10 + d;
        proof {
            assert(v >= 10);
            assert(v / 10 == vg && v % 10 == d) by (nonlinear_arith)
                requires
                    v == vg * 10 + d,
                    0 <= d < 10,
                    vg >= 1,
            ;
            assert(spec_dec(v as nat) == spec_dec(vg as nat).push(((48 + d) as u8) as char));
            vstd::utf8::char_u32_cast(c, u);
            assert((((48 + d) as u8) as char) as u32 == 48 + d);
            vstd::utf8::char_u32_cast(((48 + d) as u8) as char, u);
            assert(s@.subrange(pos as int, i + 1) =~= s@.subrange(pos as int, i as int).push(c));
        }
        i += 1;
    }
    Some((v, i))
}

/// A whole signed numeral splits on its sign: an unsigned one stands
/// as it is, a negative one as a minus sign with the magnitude's whole
/// numeral after it.
proof fn lemma_int_numeral_split(s: Seq<char>, pos: int, v: i64)
    requires
        spec_numeral_at(s, pos, spec_dec_int(v as int)),
    ensures
        v >= 0 ==> spec_numeral_at(s, pos, spec_dec(v as nat)) && pos < s.len() && 48 <= s[pos]
            as u32 <= 57,
        v < 0 ==> pos < s.len() && s[pos] == '-' && spec_numeral_at(
            s,
            pos + 1,
            spec_dec((-(v as int)) as nat),
        ),
{
    if v >= 0 {
        crate::header::lemma_dec_shape(v as nat);
        assert(spec_dec_int(v as int) == spec_dec(v as nat));
        let lv = spec_dec(v as nat).len() as int;
        assert(s.subrange(pos, pos + lv) == spec_dec(v as nat));
        assert(s.subrange(pos, pos + lv)[0] == s[pos]);
        assert(s[pos] == spec_dec(v as nat)[0]);
    } else {
        let m = (-(v as int)) as nat;
        crate::header::lemma_dec_shape(m);
        let d = spec_dec(m);
        let big = spec_dec_int(v as int);
        let lb = big.len() as int;
        assert(lb == 1 + d.len());
        assert(s.subrange(pos, pos + lb) == big);
        assert(forall|k: int| 0 <= k < lb ==> #[trigger] s.subrange(pos, pos + lb)[k] == s[pos
            + k]);
        assert(big[0] == '-');
        assert(forall|k: int| 0 <= k < d.len() ==> #[trigger] big[1 + k] == d[k]);
        assert forall|k: int| 0 <= k < d.len() implies s.subrange(
            pos + 1,
            pos + 1 + d.len() as int,
        )[k] == d[k] by {
            assert(s.subrange(pos, pos + lb)[1 + k] == s[pos + 1 + k]);
            assert(s.subrange(pos + 1, pos + 1 + d.len() as int)[k] == s[pos + 1 + k]);
        }
        assert(s.subrange(pos + 1, pos + 1 + d.len() as int) =~= d);
    }
}

/// Parse a decimal numeral with an optional leading minus sign, the
/// magnitude within `i64`: no digit follows the consumed text, and a
/// failure means no whole numeral within `i64` stands at the position.
fn parse_i64(s: &str, pos: usize) -> (r: Option<(i64, usize)>)
    ensures
        match r {
            Some(p) => pos < p.1 <= s@.len() && s@.subrange(pos as int, p.1 as int)
                == spec_dec_int(p.0 as int) && (p.1 == s@.len() || !crate::naming::is_digit_char(
                s@[p.1 as int],
            )),
            None => forall|v: i64| !spec_numeral_at(s@, pos as int, spec_dec_int(v as int)),
        },
{
    let n: usize = s.unicode_len();
    if pos >= n {
        proof {
            assert forall|v: i64| !spec_numeral_at(s@, pos as int, spec_dec_int(v as int)) by {
                if spec_numeral_at(s@, pos as int, spec_dec_int(v as int)) {
                    lemma_int_numeral_split(s@, pos as int, v);
                }
            }
        }
        return None;
    }
    if s.get_char(pos) == '-' {
        let r64 = parse_u64(s, pos + 1);
        proof {
            if r64 is None {
                assert forall|v: i64| !spec_numeral_at(s@, pos as int, spec_dec_int(v as int))
                    by {
                    if spec_numeral_at(s@, pos as int, spec_dec_int(v as int)) {
                        lemma_int_numeral_split(s@, pos as int, v);
                        if v < 0 {
                            let m = (-(v as int)) as nat;
                            assert((m as u64) as nat == m);
                            assert(!spec_numeral_at(s@, pos + 1, spec_dec((m as u64) as nat)));
                        }
                    }
                }
            }
        }
        let (u, p2) = match r64 {
            Some(p) => p,
            None => {
                return None;
            },
        };
        proof {
            assert(spec_numeral_at(s@, pos + 1, spec_dec(u as nat)));
        }
        if u == 0 {
            proof {
                assert forall|v: i64| !spec_numeral_at(s@, pos as int, spec_dec_int(v as int))
                    by {
                    if spec_numeral_at(s@, pos as int, spec_dec_int(v as int)) {
                        lemma_int_numeral_split(s@, pos as int, v);
                        if v < 0 {
                            let m = (-(v as int)) as nat;
                            lemma_dec_det(s@, pos + 1, u as nat, m);
                        }
                    }
                }
            }
            return None;
        }
        let v: i64 = if u <= i64::MAX as u64 {
            -(u as i64)
        } else if u == 9223372036854775808u64 {
            i64::MIN
        } else {
            proof {
                assert forall|w: i64| !spec_numeral_at(s@, pos as int, spec_dec_int(w as int))
                    by {
                    if spec_numeral_at(s@, pos as int, spec_dec_int(w as int)) {
                        lemma_int_numeral_split(s@, pos as int, w);
                        if w < 0 {
                            let m = (-(w as int)) as nat;
                            lemma_dec_det(s@, pos + 1, u as nat, m);
                            assert(m <= 9223372036854775808);
                        }
                    }
                }
            }
            return None;
        };
        proof {
            assert(-(v as int) == u);
            lemma_subrange_concat(s@, pos as int, pos + 1, p2 as int);
            assert(s@.subrange(pos as int, pos + 1) =~= seq!['-']);
        }
        Some((v, p2))
    } else {
        let r64 = parse_u64(s, pos);
        proof {
            if r64 is None {
                assert forall|v: i64| !spec_numeral_at(s@, pos as int, spec_dec_int(v as int))
                    by {
                    if spec_numeral_at(s@, pos as int, spec_dec_int(v as int)) {
                        lemma_int_numeral_split(s@, pos as int, v);
                        if v >= 0 {
                            assert((v as u64) as nat == v as nat);
                            assert(!spec_numeral_at(s@, pos as int, spec_dec((v as u64) as nat)));
                        } else {
                            assert(('-') as u32 == 45);
                            vstd::utf8::char_u32_cast('-', 45);
                            vstd::utf8::char_u32_cast(s@[pos as int], s@[pos as int] as u32);
                        }
                    }
                }
            }
        }
        let (u, p2) = match r64 {
            Some(p) => p,
            None => {
                return None;
            },
        };
        if u > i64::MAX as u64 {
            proof {
                assert(spec_numeral_at(s@, pos as int, spec_dec(u as nat)));
                assert forall|v: i64| !spec_numeral_at(s@, pos as int, spec_dec_int(v as int))
                    by {
                    if spec_numeral_at(s@, pos as int, spec_dec_int(v as int)) {
                        lemma_int_numeral_split(s@, pos as int, v);
                        if v >= 0 {
                            lemma_dec_det(s@, pos as int, u as nat, v as nat);
                        } else {
                            assert(('-') as u32 == 45);
                            vstd::utf8::char_u32_cast('-', 45);
                            vstd::utf8::char_u32_cast(s@[pos as int], s@[pos as int] as u32);
                        }
                    }
                }
            }
            return None;
        }
        Some((u as i64, p2))
    }
}

/// A concatenation standing at a position splits into its two parts,
/// each standing at its own position.
proof fn lemma_starts_split(s: Seq<char>, pos: int, a: Seq<char>, b: Seq<char>)
    requires
        starts_with_at(s, pos, a + b),
    ensures
        starts_with_at(s, pos, a),
        starts_with_at(s, pos + a.len(), b),
{
    let w = s.subrange(pos, pos + (a + b).len() as int);
    assert(forall|k: int| 0 <= k < w.len() ==> #[trigger] w[k] == s[pos + k]);
    assert(s.subrange(pos, pos + a.len() as int) =~= a);
    assert forall|k: int| 0 <= k < b.len() implies s.subrange(
        pos + a.len(),
        pos + a.len() + b.len() as int,
    )[k] == b[k] by {
        assert(w[a.len() + k] == s[pos + a.len() + k]);
        assert((a + b)[a.len() + k] == b[k]);
        assert(s.subrange(pos + a.len(), pos + a.len() + b.len() as int)[k] == s[pos + a.len()
            + k]);
    }
    assert(s.subrange(pos + a.len(), pos + a.len() + b.len() as int) =~= b);
}

/// Two parts standing back to back form their concatenation.
proof fn lemma_starts_join(s: Seq<char>, pos: int, a: Seq<char>, b: Seq<char>)
    requires
        starts_with_at(s, pos, a),
        starts_with_at(s, pos + a.len(), b),
    ensures
        starts_with_at(s, pos, a + b),
{
    assert(s.subrange(pos, pos + (a + b).len() as int) =~= a + b) by {
        assert(forall|k: int|
            0 <= k < a.len() ==> #[trigger] s.subrange(pos, pos + a.len() as int)[k] == s[pos
                + k]);
        assert(forall|k: int|
            0 <= k < b.len() ==> #[trigger] s.subrange(
                pos + a.len(),
                pos + a.len() + b.len() as int,
            )[k] == s[pos + a.len() + k]);
    }
}

/// A parsed string literal and one standing at the same place are the
/// same literal with the same extent.
proof fn lemma_jstr_det_at(s: Seq<char>, a: int, b: int, v: Seq<char>, x: Seq<char>)
    requires
        0 <= a <= b <= s.len(),
        s.subrange(a, b) == spec_json_string(v),
        starts_with_at(s, a, spec_json_string(x)),
    ensures
        v == x,
        b == a + spec_json_string(x).len(),
{
    let lv = spec_json_string(v).len() as int;
    let lx = spec_json_string(x).len() as int;
    assert(lv == spec_json_escape(v).len() + 2);
    assert(lx == spec_json_escape(x).len() + 2);
    assert(b - a == lv);
    let w = s.skip(a + 1);
    let rv = spec_json_escape(v) + seq!['"'] + s.skip(b);
    assert(w.len() == rv.len());
    assert forall|k: int| 0 <= k < w.len() implies w[k] == rv[k] by {
        assert(w[k] == s[a + 1 + k]);
        let ev = spec_json_escape(v).len() as int;
        if k < ev {
            assert(s.subrange(a, b)[1 + k] == s[a + 1 + k]);
            assert(spec_json_string(v)[1 + k] == spec_json_escape(v)[k]);
            assert(rv[k] == spec_json_escape(v)[k]);
        } else if k == ev {
            assert(s.subrange(a, b)[lv - 1] == s[b - 1]);
            assert(spec_json_string(v)[lv - 1] == '"');
            assert(rv[k] == '"');
        } else {
            assert(rv[k] == s.skip(b)[k - ev - 1]);
            assert(s.skip(b)[k - ev - 1] == s[b + (k - ev - 1)]);
        }
    }
    assert(w =~= rv);
    let rx = spec_json_escape(x) + seq!['"'] + s.skip(a + lx);
    assert(w.len() == rx.len());
    assert forall|k: int| 0 <= k < w.len() implies w[k] == rx[k] by {
        assert(w[k] == s[a + 1 + k]);
        let ex2 = spec_json_escape(x).len() as int;
        if k < ex2 {
            assert(s.subrange(a, a + lx)[1 + k] == s[a + 1 + k]);
            assert(spec_json_string(x)[1 + k] == spec_json_escape(x)[k]);
            assert(rx[k] == spec_json_escape(x)[k]);
        } else if k == ex2 {
            assert(s.subrange(a, a + lx)[lx - 1] == s[a + lx - 1]);
            assert(spec_json_string(x)[lx - 1] == '"');
            assert(rx[k] == '"');
        } else {
            assert(rx[k] == s.skip(a + lx)[k - ex2 - 1]);
            assert(s.skip(a + lx)[k - ex2 - 1] == s[a + lx + (k - ex2 - 1)]);
        }
    }
    assert(w =~= rx);
    lemma_string_lit_det(v, x, s.skip(b), s.skip(a + lx));
}

/// A parsed numeral and one standing whole at the same place are the
/// same numeral with the same extent.
proof fn lemma_u64_det_at(s: Seq<char>, a: int, b: int, v: u64, w: nat)
    requires
        0 <= a < b <= s.len(),
        s.subrange(a, b) == spec_dec(v as nat),
        b == s.len() || !crate::naming::is_digit_char(s[b]),
        starts_with_at(s, a, spec_dec(w)),
        a + spec_dec(w).len() == s.len() || !crate::naming::is_digit_char(
            s[a + spec_dec(w).len()],
        ),
    ensures
        v as nat == w,
        b == a + spec_dec(w).len(),
{
    assert(spec_numeral_at(s, a, spec_dec(v as nat))) by {
        assert(starts_with_at(s, a, spec_dec(v as nat))) by {
            assert(s.subrange(a, a + spec_dec(v as nat).len() as int) == spec_dec(v as nat));
        }
    }
    assert(spec_numeral_at(s, a, spec_dec(w)));
    lemma_dec_det_nat(s, a, v as nat, w);
}

/// `lemma_dec_det` generalized to natural values beyond `u64`.
proof fn lemma_dec_det_nat(s: Seq<char>, pos: int, a: nat, b: nat)
    requires
        spec_numeral_at(s, pos, spec_dec(a)),
        spec_numeral_at(s, pos, spec_dec(b)),
    ensures
        a == b,
{
    crate::header::lemma_dec_shape(a);
    crate::header::lemma_dec_shape(b);
    let la = spec_dec(a).len() as int;
    let lb = spec_dec(b).len() as int;
    if la < lb {
        assert(s.subrange(pos, pos + lb)[la] == s[pos + la]);
        assert(crate::naming::is_digit_char(spec_dec(b)[la]));
    } else if lb < la {
        assert(s.subrange(pos, pos + la)[lb] == s[pos + lb]);
        assert(crate::naming::is_digit_char(spec_dec(a)[lb]));
    } else {
        assert(spec_dec(a) =~= spec_dec(b)) by {
            assert(forall|k: int|
                0 <= k < la ==> #[trigger] s.subrange(pos, pos + la)[k] == s[pos + k]
                    && s.subrange(pos, pos + lb)[k] == s[pos + k]);
        }
        crate::header::lemma_dec_injective(a, b);
    }
}

/// The signed counterpart of `lemma_u64_det_at`.
proof fn lemma_i64_det_at(s: Seq<char>, a: int, b: int, v: i64, w: int)
    requires
        0 <= a < b <= s.len(),
        s.subrange(a, b) == spec_dec_int(v as int),
        b == s.len() || !crate::naming::is_digit_char(s[b]),
        starts_with_at(s, a, spec_dec_int(w)),
        i64::MIN <= w <= i64::MAX,
        a + spec_dec_int(w).len() == s.len() || !crate::naming::is_digit_char(
            s[a + spec_dec_int(w).len()],
        ),
    ensures
        v as int == w,
        b == a + spec_dec_int(w).len(),
{
    assert(spec_numeral_at(s, a, spec_dec_int(v as int))) by {
        assert(s.subrange(a, a + spec_dec_int(v as int).len() as int) == spec_dec_int(v as int));
    }
    assert(spec_numeral_at(s, a, spec_dec_int(w)));
    lemma_int_numeral_split(s, a, v);
    let w64: i64 = w as i64;
    assert(spec_dec_int(w64 as int) == spec_dec_int(w));
    lemma_int_numeral_split(s, a, w64);
    if v >= 0 && w >= 0 {
        lemma_dec_det_nat(s, a, v as nat, w as nat);
    } else if v < 0 && w < 0 {
        lemma_dec_det_nat(s, a + 1, (-(v as int)) as nat, (-w) as nat);
    } else if v >= 0 {
        assert(('-') as u32 == 45);
        vstd::utf8::char_u32_cast('-', 45);
        vstd::utf8::char_u32_cast(s[a], s[a] as u32);
    } else {
        assert(('-') as u32 == 45);
        vstd::utf8::char_u32_cast('-', 45);
        vstd::utf8::char_u32_cast(s[a], s[a] as u32);
    }
}

/// The consumed form of a run of entries, each followed by the
/// separator that announces another one.
pub open spec fn entries_prefix(xs: Seq<Seq<char>>) -> Seq<char>
    decreases xs.len(),
{
    if xs.len() == 0 {
        Seq::<char>::empty()
    } else {
        entries_prefix(xs.drop_last()) + xs.last() + ",\n"@
    }
}

proof fn lemma_join_from_prefix(xs: Seq<Seq<char>>)
    requires
        xs.len() >= 1,
    ensures
        crate::sqlgen::spec_join(xs, ",\n"@) == entries_prefix(xs.drop_last()) + xs.last(),
    decreases xs.len(),
{
    if xs.len() > 1 {
        lemma_join_from_prefix(xs.drop_last());
        assert(entries_prefix(xs.drop_last()) =~= entries_prefix(xs.drop_last().drop_last())
            + xs.drop_last().last() + ",\n"@);
        assert(crate::sqlgen::spec_join(xs, ",\n"@) =~= entries_prefix(xs.drop_last())
            + xs.last());
    } else {
        assert(entries_prefix(xs.drop_last()) =~= Seq::<char>::empty());
        assert(crate::sqlgen::spec_join(xs, ",\n"@) =~= entries_prefix(xs.drop_last())
            + xs.last());
    }
}

/// Stamps with the same field values, whatever their heap identity:
/// such stamps render identically.
pub open spec fn stamp_eqv(a: FileStamp, b: FileStamp) -> bool {
    a.path@ == b.path@ && a.size == b.size && a.mtime_unix_ms == b.mtime_unix_ms && a.quick_hash@
        == b.quick_hash@
}

/// Where each piece of a stamps entry stands when the entry stands at
/// `pos`, and that a comma — not a digit — follows each numeral.
proof fn lemma_entry_pieces(s: Seq<char>, pos: int, st: FileStamp)
    requires
        starts_with_at(s, pos, spec_stamp_entry(st)),
    ensures
        ({
            let q1 = pos + "    "@.len();
            let q2 = q1 + spec_json_string(st.path@).len();
            let q3 = q2 + ": {\n      \"path\": "@.len();
            let q4 = q3 + spec_json_string(st.path@).len();
            let q5 = q4 + ",\n      \"size\": "@.len();
            let q6 = q5 + spec_dec(st.size as nat).len();
            let q7 = q6 + ",\n      \"mtime_unix_ms\": "@.len();
            let q8 = q7 + spec_dec_int(st.mtime_unix_ms as int).len();
            let q9 = q8 + ",\n      \"quick_hash\": "@.len();
            let q10 = q9 + spec_json_string(st.quick_hash@).len();
            let q11 = q10 + "\n    }"@.len();
            &&& starts_with_at(s, pos, "    "@)
            &&& starts_with_at(s, q1, spec_json_string(st.path@))
            &&& starts_with_at(s, q2, ": {\n      \"path\": "@)
            &&& starts_with_at(s, q3, spec_json_string(st.path@))
            &&& starts_with_at(s, q4, ",\n      \"size\": "@)
            &&& starts_with_at(s, q5, spec_dec(st.size as nat))
            &&& starts_with_at(s, q6, ",\n      \"mtime_unix_ms\": "@)
            &&& starts_with_at(s, q7, spec_dec_int(st.mtime_unix_ms as int))
            &&& starts_with_at(s, q8, ",\n      \"quick_hash\": "@)
            &&& starts_with_at(s, q9, spec_json_string(st.quick_hash@))
            &&& starts_with_at(s, q10, "\n    }"@)
            &&& q6 < s.len() && !crate::naming::is_digit_char(s[q6])
            &&& q8 < s.len() && !crate::naming::is_digit_char(s[q8])
            &&& pos + spec_stamp_entry(st).len() == q11
        }),
{
    reveal_strlit("    ");
    reveal_strlit(": ");
    reveal_strlit("{\n      \"path\": ");
    reveal_strlit(": {\n      \"path\": ");
    reveal_strlit(",\n      \"size\": ");
    reveal_strlit(",\n      \"mtime_unix_ms\": ");
    reveal_strlit(",\n      \"quick_hash\": ");
    reveal_strlit("\n    }");
    let jp = spec_json_string(st.path@);
    let jh = spec_json_string(st.quick_hash@);
    let dsz = spec_dec(st.size as nat);
    let dmt = spec_dec_int(st.mtime_unix_ms as int);
    let sj = spec_stamp_json(st);
    assert(spec_stamp_entry(st) == "    "@ + jp + ": "@ + sj);
    lemma_starts_split(s, pos, "    "@ + jp + ": "@, sj);
    lemma_starts_split(s, pos, "    "@ + jp, ": "@);
    lemma_starts_split(s, pos, "    "@, jp);
    let o3 = pos + ("    "@ + jp + ": "@).len();
    assert(sj == "{\n      \"path\": "@ + jp + ",\n      \"size\": "@ + dsz
        + ",\n      \"mtime_unix_ms\": "@ + dmt + ",\n      \"quick_hash\": "@ + jh
        + "\n    }"@);
    lemma_starts_split(
        s,
        o3,
        "{\n      \"path\": "@ + jp + ",\n      \"size\": "@ + dsz
            + ",\n      \"mtime_unix_ms\": "@ + dmt + ",\n      \"quick_hash\": "@ + jh,
        "\n    }"@,
    );
    lemma_starts_split(
        s,
        o3,
        "{\n      \"path\": "@ + jp + ",\n      \"size\": "@ + dsz
            + ",\n      \"mtime_unix_ms\": "@ + dmt + ",\n      \"quick_hash\": "@,
        jh,
    );
    lemma_starts_split(
        s,
        o3,
        "{\n      \"path\": "@ + jp + ",\n      \"size\": "@ + dsz
            + ",\n      \"mtime_unix_ms\": "@ + dmt,
        ",\n      \"quick_hash\": "@,
    );
    lemma_starts_split(
        s,
        o3,
        "{\n      \"path\": "@ + jp + ",\n      \"size\": "@ + dsz
            + ",\n      \"mtime_unix_ms\": "@,
        dmt,
    );
    lemma_starts_split(s, o3, "{\n      \"path\": "@ + jp + ",\n      \"size\": "@ + dsz,
        ",\n      \"mtime_unix_ms\": "@);
    lemma_starts_split(s, o3, "{\n      \"path\": "@ + jp + ",\n      \"size\": "@, dsz);
    lemma_starts_split(s, o3, "{\n      \"path\": "@ + jp, ",\n      \"size\": "@);
    lemma_starts_split(s, o3, "{\n      \"path\": "@, jp);
    assert(": {\n      \"path\": "@ =~= ": "@ + "{\n      \"path\": "@);
    lemma_starts_join(s, pos + ("    "@ + jp).len(), ": "@, "{\n      \"path\": "@);
    let q6 = pos + "    "@.len() + jp.len() + ": {\n      \"path\": "@.len() + jp.len()
        + ",\n      \"size\": "@.len() + dsz.len();
    assert(s[q6] == ",\n      \"mtime_unix_ms\": "@[0]);
    assert(",\n      \"mtime_unix_ms\": "@[0] == ',');
    assert((',') as u32 == 44);
    vstd::utf8::char_u32_cast(',', 44);
    vstd::utf8::char_u32_cast(s[q6], s[q6] as u32);
    let q8 = q6 + ",\n      \"mtime_unix_ms\": "@.len() + dmt.len();
    assert(s[q8] == ",\n      \"quick_hash\": "@[0]);
    assert(",\n      \"quick_hash\": "@[0] == ',');
    vstd::utf8::char_u32_cast(s[q8], s[q8] as u32);
}

/// A parsed entry and one standing at the same place describe the same
/// stamp and have the same extent.
proof fn lemma_entry_det_at(s: Seq<char>, a: int, b: int, st1: FileStamp, st2: FileStamp)
    requires
        0 <= a <= b <= s.len(),
        s.subrange(a, b) == spec_stamp_entry(st1),
        starts_with_at(s, a, spec_stamp_entry(st2)),
    ensures
        stamp_eqv(st1, st2),
        b == a + spec_stamp_entry(st2).len(),
{
    assert(starts_with_at(s, a, spec_stamp_entry(st1))) by {
        assert(s.subrange(a, a + spec_stamp_entry(st1).len() as int) == spec_stamp_entry(st1));
    }
    lemma_entry_pieces(s, a, st1);
    lemma_entry_pieces(s, a, st2);
    let q1 = a + "    "@.len();
    lemma_jstr_det_at(
        s,
        q1,
        q1 + spec_json_string(st1.path@).len(),
        st1.path@,
        st2.path@,
    );
    let q5 = q1 + spec_json_string(st1.path@).len() + ": {\n      \"path\": "@.len()
        + spec_json_string(st1.path@).len() + ",\n      \"size\": "@.len();
    assert(spec_numeral_at(s, q5, spec_dec(st1.size as nat))) by {
        crate::header::lemma_dec_shape(st1.size as nat);
    }
    assert(spec_numeral_at(s, q5, spec_dec(st2.size as nat))) by {
        crate::header::lemma_dec_shape(st2.size as nat);
    }
    lemma_dec_det_nat(s, q5, st1.size as nat, st2.size as nat);
    let q7 = q5 + spec_dec(st1.size as nat).len() + ",\n      \"mtime_unix_ms\": "@.len();
    assert(spec_numeral_at(s, q7, spec_dec_int(st1.mtime_unix_ms as int)));
    assert(spec_numeral_at(s, q7, spec_dec_int(st2.mtime_unix_ms as int)));
    lemma_int_numeral_split(s, q7, st1.mtime_unix_ms);
    lemma_int_numeral_split(s, q7, st2.mtime_unix_ms);
    if st1.mtime_unix_ms >= 0 && st2.mtime_unix_ms >= 0 {
        lemma_dec_det_nat(s, q7, st1.mtime_unix_ms as nat, st2.mtime_unix_ms as nat);
    } else if st1.mtime_unix_ms < 0 && st2.mtime_unix_ms < 0 {
        lemma_dec_det_nat(
            s,
            q7 + 1,
            (-(st1.mtime_unix_ms as int)) as nat,
            (-(st2.mtime_unix_ms as int)) as nat,
        );
    } else {
        assert(('-') as u32 == 45);
        vstd::utf8::char_u32_cast('-', 45);
        vstd::utf8::char_u32_cast(s[q7], s[q7] as u32);
        assert(false);
    }
    let q9 = q7 + spec_dec_int(st1.mtime_unix_ms as int).len()
        + ",\n      \"quick_hash\": "@.len();
    lemma_jstr_det_at(
        s,
        q9,
        q9 + spec_json_string(st1.quick_hash@).len(),
        st1.quick_hash@,
        st2.quick_hash@,
    );
}

/// Where the `k`-th entry of a rendered entry list stands inside the
/// joined text, and what follows it.
proof fn lemma_join_peel(xs: Seq<Seq<char>>, k: int) -> (rest: Seq<char>)
    requires
        0 <= k < xs.len(),
    ensures
        k + 1 < xs.len() ==> crate::sqlgen::spec_join(xs, ",\n"@) == entries_prefix(xs.take(k))
            + xs[k] + ",\n"@ + rest,
        k + 1 == xs.len() ==> crate::sqlgen::spec_join(xs, ",\n"@) == entries_prefix(xs.take(k))
            + xs[k],
    decreases xs.len(),
{
    if k + 1 == xs.len() {
        lemma_join_from_prefix(xs);
        assert(xs.drop_last() =~= xs.take(k));
        assert(xs.last() == xs[k]);
        Seq::<char>::empty()
    } else {
        let dl = xs.drop_last();
        let r0 = lemma_join_peel(dl, k);
        assert(dl.take(k) =~= xs.take(k));
        assert(dl[k] == xs[k]);
        if k + 1 < dl.len() {
            let rest = r0 + ",\n"@ + xs.last();
            assert(crate::sqlgen::spec_join(xs, ",\n"@) =~= entries_prefix(xs.take(k)) + xs[k]
                + ",\n"@ + rest);
            rest
        } else {
            let rest = xs.last();
            assert(crate::sqlgen::spec_join(xs, ",\n"@) =~= entries_prefix(xs.take(k)) + xs[k]
                + ",\n"@ + rest);
            rest
        }
    }
}

/// Parse one stamps entry: the key, then the stamp object, the key
/// matching the stamp's own path.
fn parse_stamp_entry(s: &str, pos: usize) -> (r: Option<(FileStamp, usize)>)
    ensures
        match r {
            Some(p) => pos <= p.1 <= s@.len() && s@.subrange(pos as int, p.1 as int)
                == spec_stamp_entry(p.0),
            None => forall|st: FileStamp| !starts_with_at(s@, pos as int, spec_stamp_entry(st)),
        },
{
    let p0 = pos;
    let p1 = match expect_lit(s, p0, "    ") {
        Some(p) => p,
        None => {
            proof {
                assert forall|st: FileStamp| !starts_with_at(
                    s@,
                    pos as int,
                    spec_stamp_entry(st),
                ) by {
                    if starts_with_at(s@, pos as int, spec_stamp_entry(st)) {
                        lemma_entry_pieces(s@, pos as int, st);
                    }
                }
            }
            return None;
        },
    };
    let key_r = parse_json_string(s, p1);
    proof {
        if key_r is None {
            assert forall|st: FileStamp| !starts_with_at(s@, pos as int, spec_stamp_entry(st))
                by {
                if starts_with_at(s@, pos as int, spec_stamp_entry(st)) {
                    lemma_entry_pieces(s@, pos as int, st);
                }
            }
        }
    }
    let (key, p2) = match key_r {
        Some(x) => x,
        None => {
            return None;
        },
    };
    proof {
        assert forall|st: FileStamp| starts_with_at(
            s@,
            pos as int,
            spec_stamp_entry(st),
        ) implies key@ == st.path@ && p2 == pos + "    "@.len() + spec_json_string(
            st.path@,
        ).len() by {
            lemma_entry_pieces(s@, pos as int, st);
            lemma_jstr_det_at(s@, p1 as int, p2 as int, key@, st.path@);
        }
    }
    let lit1_r = expect_lit(s, p2, ": {\n      \"path\": ");
    proof {
        if lit1_r is None {
            assert forall|st: FileStamp| !starts_with_at(s@, pos as int, spec_stamp_entry(st))
                by {
                if starts_with_at(s@, pos as int, spec_stamp_entry(st)) {
                    lemma_entry_pieces(s@, pos as int, st);
                }
            }
        }
    }
    let p3 = match lit1_r {
        Some(p) => p,
        None => {
            return None;
        },
    };
    let path_r = parse_json_string(s, p3);
    proof {
        if path_r is None {
            assert forall|st: FileStamp| !starts_with_at(s@, pos as int, spec_stamp_entry(st))
                by {
                if starts_with_at(s@, pos as int, spec_stamp_entry(st)) {
                    lemma_entry_pieces(s@, pos as int, st);
                }
            }
        }
    }
    let (path, p4) = match path_r {
        Some(x) => x,
        None => {
            return None;
        },
    };
    proof {
        assert forall|st: FileStamp| starts_with_at(
            s@,
            pos as int,
            spec_stamp_entry(st),
        ) implies path@ == st.path@ && p4 == p3 + spec_json_string(st.path@).len() by {
            lemma_entry_pieces(s@, pos as int, st);
            lemma_jstr_det_at(s@, p3 as int, p4 as int, path@, st.path@);
        }
    }
    if !str_eq(key.as_str(), path.as_str()) {
        proof {
            assert forall|st: FileStamp| !starts_with_at(s@, pos as int, spec_stamp_entry(st))
                by {
                if starts_with_at(s@, pos as int, spec_stamp_entry(st)) {
                    assert(key@ == st.path@ && path@ == st.path@);
                }
            }
        }
        return None;
    }
    let lit2_r = expect_lit(s, p4, ",\n      \"size\": ");
    proof {
        if lit2_r is None {
            assert forall|st: FileStamp| !starts_with_at(s@, pos as int, spec_stamp_entry(st))
                by {
                if starts_with_at(s@, pos as int, spec_stamp_entry(st)) {
                    lemma_entry_pieces(s@, pos as int, st);
                }
            }
        }
    }
    let p5 = match lit2_r {
        Some(p) => p,
        None => {
            return None;
        },
    };
    let size_r = parse_u64(s, p5);
    proof {
        if size_r is None {
            assert forall|st: FileStamp| !starts_with_at(s@, pos as int, spec_stamp_entry(st))
                by {
                if starts_with_at(s@, pos as int, spec_stamp_entry(st)) {
                    lemma_entry_pieces(s@, pos as int, st);
                    crate::header::lemma_dec_shape(st.size as nat);
                    assert(spec_numeral_at(s@, p5 as int, spec_dec(st.size as nat)));
                }
            }
        }
    }
    let (size, p6) = match size_r {
        Some(x) => x,
        None => {
            return None;
        },
    };
    proof {
        assert forall|st: FileStamp| starts_with_at(
            s@,
            pos as int,
            spec_stamp_entry(st),
        ) implies size == st.size && p6 == p5 + spec_dec(st.size as nat).len() by {
            lemma_entry_pieces(s@, pos as int, st);
            lemma_u64_det_at(s@, p5 as int, p6 as int, size, st.size as nat);
        }
    }
    let lit3_r = expect_lit(s, p6, ",\n      \"mtime_unix_ms\": ");
    proof {
        if lit3_r is None {
            assert forall|st: FileStamp| !starts_with_at(s@, pos as int, spec_stamp_entry(st))
                by {
                if starts_with_at(s@, pos as int, spec_stamp_entry(st)) {
                    lemma_entry_pieces(s@, pos as int, st);
                }
            }
        }
    }
    let p7 = match lit3_r {
        Some(p) => p,
        None => {
            return None;
        },
    };
    let mt_r = parse_i64(s, p7);
    proof {
        if mt_r is None {
            assert forall|st: FileStamp| !starts_with_at(s@, pos as int, spec_stamp_entry(st))
                by {
                if starts_with_at(s@, pos as int, spec_stamp_entry(st)) {
                    lemma_entry_pieces(s@, pos as int, st);
                    assert(spec_numeral_at(
                        s@,
                        p7 as int,
                        spec_dec_int(st.mtime_unix_ms as int),
                    ));
                }
            }
        }
    }
    let (mtime_unix_ms, p8) = match mt_r {
        Some(x) => x,
        None => {
            return None;
        },
    };
    proof {
        assert forall|st: FileStamp| starts_with_at(
            s@,
            pos as int,
            spec_stamp_entry(st),
        ) implies mtime_unix_ms == st.mtime_unix_ms && p8 == p7 + spec_dec_int(
            st.mtime_unix_ms as int,
        ).len() by {
            lemma_entry_pieces(s@, pos as int, st);
            lemma_i64_det_at(s@, p7 as int, p8 as int, mtime_unix_ms, st.mtime_unix_ms as int);
        }
    }
    let lit4_r = expect_lit(s, p8, ",\n      \"quick_hash\": ");
    proof {
        if lit4_r is None {
            assert forall|st: FileStamp| !starts_with_at(s@, pos as int, spec_stamp_entry(st))
                by {
                if starts_with_at(s@, pos as int, spec_stamp_entry(st)) {
                    lemma_entry_pieces(s@, pos as int, st);
                }
            }
        }
    }
    let p9 = match lit4_r {
        Some(p) => p,
        None => {
            return None;
        },
    };
    let hash_r = parse_json_string(s, p9);
    proof {
        if hash_r is None {
            assert forall|st: FileStamp| !starts_with_at(s@, pos as int, spec_stamp_entry(st))
                by {
                if starts_with_at(s@, pos as int, spec_stamp_entry(st)) {
                    lemma_entry_pieces(s@, pos as int, st);
                }
            }
        }
    }
    let (quick_hash, p10) = match hash_r {
        Some(x) => x,
        None => {
            return None;
        },
    };
    proof {
        assert forall|st: FileStamp| starts_with_at(
            s@,
            pos as int,
            spec_stamp_entry(st),
        ) implies quick_hash@ == st.quick_hash@ && p10 == p9 + spec_json_string(
            st.quick_hash@,
        ).len() by {
            lemma_entry_pieces(s@, pos as int, st);
            lemma_jstr_det_at(s@, p9 as int, p10 as int, quick_hash@, st.quick_hash@);
        }
    }
    let lit5_r = expect_lit(s, p10, "\n    }");
    proof {
        if lit5_r is None {
            assert forall|st: FileStamp| !starts_with_at(s@, pos as int, spec_stamp_entry(st))
                by {
                if starts_with_at(s@, pos as int, spec_stamp_entry(st)) {
                    lemma_entry_pieces(s@, pos as int, st);
                }
            }
        }
    }
    let p11 = match lit5_r {
        Some(p) => p,
        None => {
            return None;
        },
    };
    let st = FileStamp { path, size, mtime_unix_ms, quick_hash };
    proof {
        lemma_subrange_concat(s@, p0 as int, p1 as int, p2 as int);
        lemma_subrange_concat(s@, p0 as int, p2 as int, p3 as int);
        lemma_subrange_concat(s@, p0 as int, p3 as int, p4 as int);
        lemma_subrange_concat(s@, p0 as int, p4 as int, p5 as int);
        lemma_subrange_concat(s@, p0 as int, p5 as int, p6 as int);
        lemma_subrange_concat(s@, p0 as int, p6 as int, p7 as int);
        lemma_subrange_concat(s@, p0 as int, p7 as int, p8 as int);
        lemma_subrange_concat(s@, p0 as int, p8 as int, p9 as int);
        lemma_subrange_concat(s@, p0 as int, p9 as int, p10 as int);
        lemma_subrange_concat(s@, p0 as int, p10 as int, p11 as int);
        reveal_strlit("    ");
        reveal_strlit(": {\n      \"path\": ");
        reveal_strlit("{\n      \"path\": ");
        reveal_strlit(": ");
        assert(": {\n      \"path\": "@ =~= ": "@ + "{\n      \"path\": "@);
        assert(s@.subrange(p0 as int, p11 as int) =~= spec_stamp_entry(st));
    }
    Some((st, p11))
}

/// Where the next entry of a stamps object stands once the entries
/// before it have been consumed, and what stands after that entry.
#[verifier::rlimit(80)]
proof fn lemma_entry_position(
    s: Seq<char>,
    pos: int,
    q: int,
    parsed: Seq<FileStamp>,
    sts2: Seq<FileStamp>,
)
    requires
        starts_with_at(s, pos, spec_stamps_json(sts2)),
        parsed.len() < sts2.len(),
        forall|j: int| 0 <= j < parsed.len() ==> stamp_eqv(#[trigger] parsed[j], sts2[j]),
        0 <= pos <= q <= s.len(),
        s.subrange(pos, q) == "{\n"@ + entries_prefix(
            Seq::new(parsed.len(), |j: int| spec_stamp_entry(parsed[j])),
        ),
    ensures
        ({
            let k = parsed.len() as int;
            let e = spec_stamp_entry(sts2[k]);
            &&& starts_with_at(s, q, e)
            &&& (k + 1 < sts2.len() ==> starts_with_at(s, q + e.len(), ",\n"@))
            &&& (k + 1 == sts2.len() ==> starts_with_at(s, q + e.len(), "\n  }"@) && pos
                + spec_stamps_json(sts2).len() == q + e.len() + "\n  }"@.len())
        }),
{
    let k = parsed.len() as int;
    let es = Seq::new(sts2.len(), |j: int| spec_stamp_entry(sts2[j]));
    let join = crate::sqlgen::spec_join(es, ",\n"@);
    assert(spec_stamps_json(sts2) == "{\n"@ + join + "\n  }"@);
    lemma_starts_split(s, pos, "{\n"@ + join, "\n  }"@);
    lemma_starts_split(s, pos, "{\n"@, join);
    let pos2 = pos + "{\n"@.len();
    let rest = lemma_join_peel(es, k);
    let parsed_es = Seq::new(parsed.len(), |j: int| spec_stamp_entry(parsed[j]));
    assert(es.take(k) =~= parsed_es) by {
        assert(forall|j: int|
            0 <= j < k ==> #[trigger] es.take(k)[j] == spec_stamp_entry(sts2[j]));
        assert(forall|j: int|
            0 <= j < k ==> spec_stamp_entry(#[trigger] parsed[j]) == spec_stamp_entry(sts2[j]));
    }
    let ep = entries_prefix(parsed_es);
    assert(Seq::new(parsed.len(), |j: int| spec_stamp_entry(parsed[j])) =~= parsed_es);
    assert(s.subrange(pos, q).len() == q - pos);
    assert(("{\n"@ + ep).len() == "{\n"@.len() + ep.len());
    assert(q - pos == "{\n"@.len() + ep.len());
    assert(q == pos2 + entries_prefix(parsed_es).len());
    if k + 1 < sts2.len() {
        assert(join == entries_prefix(parsed_es) + es[k] + ",\n"@ + rest);
        lemma_starts_split(s, pos2, entries_prefix(parsed_es) + es[k] + ",\n"@, rest);
        lemma_starts_split(s, pos2, entries_prefix(parsed_es) + es[k], ",\n"@);
        lemma_starts_split(s, pos2, entries_prefix(parsed_es), es[k]);
    } else {
        assert(join == entries_prefix(parsed_es) + es[k]);
        lemma_starts_split(s, pos2, entries_prefix(parsed_es), es[k]);
    }
}

/// Parse the stamps object: `{}`, or entries between `{` and `}`, the
/// keys pairwise distinct. Whatever parses is an exact pre-image; its
/// extent is fixed by any stamps object standing at the position; and
/// a failure means no stamps object with unique keys stands there.
fn parse_stamps(s: &str, pos: usize) -> (r: Option<(Vec<FileStamp>, usize)>)
    ensures
        match r {
            Some(p) => pos <= p.1 <= s@.len() && s@.subrange(pos as int, p.1 as int)
                == spec_stamps_json(p.0@) && stamps_unique(p.0@) && (forall|
                sts2: Seq<FileStamp>,
            |
                stamps_unique(sts2) && starts_with_at(
                    s@,
                    pos as int,
                    #[trigger] spec_stamps_json(sts2),
                ) ==> p.1 == pos + spec_stamps_json(sts2).len()),
            None => forall|sts2: Seq<FileStamp>|
                !(stamps_unique(sts2) && starts_with_at(
                    s@,
                    pos as int,
                    #[trigger] spec_stamps_json(sts2),
                )),
        },
{
    let n: usize = s.unicode_len();
    let empty_r = expect_lit(s, pos, "{}");
    match empty_r {
        Some(p2) => {
            let stamps: Vec<FileStamp> = Vec::new();
            proof {
                assert forall|sts2: Seq<FileStamp>|
                    stamps_unique(sts2) && starts_with_at(
                        s@,
                        pos as int,
                        #[trigger] spec_stamps_json(sts2),
                    ) implies p2 == pos + spec_stamps_json(sts2).len() by {
                    reveal_strlit("{}");
                    reveal_strlit("{\n");
                    if sts2.len() > 0 {
                        let es = Seq::new(sts2.len(), |j: int| spec_stamp_entry(sts2[j]));
                        let join = crate::sqlgen::spec_join(es, ",\n"@);
                        assert(spec_stamps_json(sts2) == "{\n"@ + join + "\n  }"@);
                        lemma_starts_split(s@, pos as int, "{\n"@ + join, "\n  }"@);
                        lemma_starts_split(s@, pos as int, "{\n"@, join);
                        assert(s@.subrange(pos as int, pos + 2)[1] == s@[pos + 1]);
                        assert(s@.subrange(pos as int, pos + "{\n"@.len() as int)[1] == s@[pos
                            + 1]);
                        assert("{}"@[1] == '}');
                        assert("{\n"@[1] == '\n');
                        assert(false);
                    }
                }
            }
            return Some((stamps, p2));
        },
        None => {},
    }
    let open_r = expect_lit(s, pos, "{\n");
    proof {
        if open_r is None {
            assert forall|sts2: Seq<FileStamp>|
                !(stamps_unique(sts2) && starts_with_at(
                    s@,
                    pos as int,
                    #[trigger] spec_stamps_json(sts2),
                )) by {
                if stamps_unique(sts2) && starts_with_at(s@, pos as int, spec_stamps_json(sts2)) {
                    if sts2.len() == 0 {
                        assert(spec_stamps_json(sts2) == "{}"@);
                    } else {
                        let es = Seq::new(sts2.len(), |j: int| spec_stamp_entry(sts2[j]));
                        let join = crate::sqlgen::spec_join(es, ",\n"@);
                        assert(spec_stamps_json(sts2) == "{\n"@ + join + "\n  }"@);
                        lemma_starts_split(s@, pos as int, "{\n"@ + join, "\n  }"@);
                        lemma_starts_split(s@, pos as int, "{\n"@, join);
                    }
                }
            }
        }
    }
    let mut q = match open_r {
        Some(q) => q,
        None => {
            return None;
        },
    };
    let mut stamps: Vec<FileStamp> = Vec::new();
    proof {
        assert(Seq::new(0nat, |j: int| spec_stamp_entry(stamps@[j])) =~= Seq::<
            Seq<char>,
        >::empty());
    }
    loop
        invariant
            n == s@.len(),
            pos <= q <= n,
            stamps_unique(stamps@),
            s@.subrange(pos as int, q as int) =~= "{\n"@ + entries_prefix(
                Seq::new(stamps@.len(), |j: int| spec_stamp_entry(stamps@[j])),
            ),
            forall|sts2: Seq<FileStamp>|
                stamps_unique(sts2) && starts_with_at(
                    s@,
                    pos as int,
                    #[trigger] spec_stamps_json(sts2),
                ) ==> stamps@.len() < sts2.len() && (forall|j: int|
                    0 <= j < stamps@.len() ==> stamp_eqv(#[trigger] stamps@[j], sts2[j])),
        decreases n - q,
    {
        let entry_r = parse_stamp_entry(s, q);
        proof {
            if entry_r is None {
                assert forall|sts2: Seq<FileStamp>|
                    !(stamps_unique(sts2) && starts_with_at(
                        s@,
                        pos as int,
                        #[trigger] spec_stamps_json(sts2),
                    )) by {
                    if stamps_unique(sts2) && starts_with_at(
                        s@,
                        pos as int,
                        spec_stamps_json(sts2),
                    ) {
                        lemma_entry_position(s@, pos as int, q as int, stamps@, sts2);
                    }
                }
            }
        }
        let (st, q2) = match entry_r {
            Some(x) => x,
            None => {
                return None;
            },
        };
        proof {
            assert forall|sts2: Seq<FileStamp>|
                stamps_unique(sts2) && starts_with_at(
                    s@,
                    pos as int,
                    #[trigger] spec_stamps_json(sts2),
                ) implies stamp_eqv(st, sts2[stamps@.len() as int]) && q2 == q
                + spec_stamp_entry(sts2[stamps@.len() as int]).len() by {
                lemma_entry_position(s@, pos as int, q as int, stamps@, sts2);
                lemma_entry_det_at(s@, q as int, q2 as int, st, sts2[stamps@.len() as int]);
            }
        }
        match find_stamp(&stamps, st.path.as_str()) {
            Some(_) => {
                proof {
                    crate::types::lemma_lookup_none(stamps@, st.path@);
                    assert forall|sts2: Seq<FileStamp>|
                        !(stamps_unique(sts2) && starts_with_at(
                            s@,
                            pos as int,
                            #[trigger] spec_stamps_json(sts2),
                        )) by {
                        if stamps_unique(sts2) && starts_with_at(
                            s@,
                            pos as int,
                            spec_stamps_json(sts2),
                        ) {
                            let k = stamps@.len() as int;
                            let j = choose|j: int|
                                0 <= j < stamps@.len() && (#[trigger] stamps@[j]).path@
                                    == st.path@;
                            assert(stamp_eqv(stamps@[j], sts2[j]));
                            assert(stamp_eqv(st, sts2[k]));
                            assert(sts2[j].path@ == sts2[k].path@);
                            assert(false);
                        }
                    }
                }
                return None;
            },
            None => {},
        }
        proof {
            crate::types::lemma_lookup_none(stamps@, st.path@);
        }
        let ghost prev_stamps = stamps@;
        stamps.push(st);
        proof {
            assert(stamps_unique(stamps@)) by {
                assert(forall|a: int| 0 <= a < prev_stamps.len() ==> stamps@[a] == prev_stamps[a]);
                assert(forall|a: int|
                    0 <= a < prev_stamps.len() ==> (#[trigger] prev_stamps[a]).path@ != stamps@[
                        stamps@.len() - 1].path@);
            }
            assert(Seq::new(stamps@.len(), |j: int| spec_stamp_entry(stamps@[j])).drop_last()
                =~= Seq::new(prev_stamps.len(), |j: int| spec_stamp_entry(prev_stamps[j])));
        }
        let sep_r = expect_lit(s, q2, ",\n");
        match sep_r {
            Some(q3) => {
                proof {
                    lemma_subrange_concat(s@, pos as int, q as int, q2 as int);
                    lemma_subrange_concat(s@, pos as int, q2 as int, q3 as int);
                    let entries2 = Seq::new(stamps@.len(), |j: int| spec_stamp_entry(stamps@[j]));
                    assert(entries2.last() == spec_stamp_entry(stamps@[stamps@.len() - 1]));
                    assert(s@.subrange(pos as int, q3 as int) =~= "{\n"@ + entries_prefix(
                        entries2,
                    ));
                    assert forall|sts2: Seq<FileStamp>|
                        stamps_unique(sts2) && starts_with_at(
                            s@,
                            pos as int,
                            #[trigger] spec_stamps_json(sts2),
                        ) implies stamps@.len() < sts2.len() && (forall|j: int|
                        0 <= j < stamps@.len() ==> stamp_eqv(#[trigger] stamps@[j], sts2[j])) by {
                        lemma_entry_position(s@, pos as int, q as int, prev_stamps, sts2);
                        if prev_stamps.len() + 1 == sts2.len() {
                            reveal_strlit("\n  }");
                            reveal_strlit(",\n");
                            assert(s@.subrange(q2 as int, q2 + 4)[0] == s@[q2 as int]);
                            assert(s@.subrange(q2 as int, q2 + 2)[0] == s@[q2 as int]);
                            assert("\n  }"@[0] == '\n');
                            assert(",\n"@[0] == ',');
                            assert(false);
                        }
                        assert(forall|j: int|
                            0 <= j < prev_stamps.len() ==> #[trigger] stamps@[j]
                                == prev_stamps[j]);
                    }
                }
                q = q3;
            },
            None => {
                let end_r = expect_lit(s, q2, "\n  }");
                proof {
                    if end_r is None {
                        assert forall|sts2: Seq<FileStamp>|
                            !(stamps_unique(sts2) && starts_with_at(
                                s@,
                                pos as int,
                                #[trigger] spec_stamps_json(sts2),
                            )) by {
                            if stamps_unique(sts2) && starts_with_at(
                                s@,
                                pos as int,
                                spec_stamps_json(sts2),
                            ) {
                                lemma_entry_position(s@, pos as int, q as int, prev_stamps, sts2);
                            }
                        }
                    }
                }
                let q3 = match end_r {
                    Some(q3) => q3,
                    None => {
                        return None;
                    },
                };
                proof {
                    let entries2 = Seq::new(stamps@.len(), |j: int| spec_stamp_entry(stamps@[j]));
                    lemma_join_from_prefix(entries2);
                    assert(entries2.last() == spec_stamp_entry(stamps@[stamps@.len() - 1]));
                    lemma_subrange_concat(s@, pos as int, q as int, q2 as int);
                    lemma_subrange_concat(s@, pos as int, q2 as int, q3 as int);
                    assert(s@.subrange(pos as int, q3 as int) =~= "{\n"@
                        + crate::sqlgen::spec_join(entries2, ",\n"@) + "\n  }"@);
                    assert(s@.subrange(pos as int, q3 as int) == spec_stamps_json(stamps@));
                    assert forall|sts2: Seq<FileStamp>|
                        stamps_unique(sts2) && starts_with_at(
                            s@,
                            pos as int,
                            #[trigger] spec_stamps_json(sts2),
                        ) implies q3 == pos + spec_stamps_json(sts2).len() by {
                        lemma_entry_position(s@, pos as int, q as int, prev_stamps, sts2);
                        if prev_stamps.len() + 1 < sts2.len() {
                            reveal_strlit("\n  }");
                            reveal_strlit(",\n");
                            assert(s@.subrange(q2 as int, q2 + 2)[0] == s@[q2 as int]);
                            assert(s@.subrange(q2 as int, q2 + 4)[0] == s@[q2 as int]);
                            assert(",\n"@[0] == ',');
                            assert("\n  }"@[0] == '\n');
                            assert(false);
                        }
                    }
                }
                return Some((stamps, q3));
            },
        }
    }
}

/// The position right after the first `k` entries of a stamps object,
/// with the consumed text they and the opening brace form.
proof fn lemma_stamps_prefix_at(s: Seq<char>, pos: int, a: Seq<FileStamp>, k: int) -> (q: int)
    requires
        0 <= pos,
        starts_with_at(s, pos, spec_stamps_json(a)),
        0 <= k < a.len(),
    ensures
        pos <= q <= s.len(),
        s.subrange(pos, q) == "{\n"@ + entries_prefix(
            Seq::new(k as nat, |j: int| spec_stamp_entry(a[j])),
        ),
{
    let es = Seq::new(a.len(), |j: int| spec_stamp_entry(a[j]));
    let join = crate::sqlgen::spec_join(es, ",\n"@);
    assert(spec_stamps_json(a) == "{\n"@ + join + "\n  }"@);
    lemma_starts_split(s, pos, "{\n"@ + join, "\n  }"@);
    lemma_starts_split(s, pos, "{\n"@, join);
    let rest = lemma_join_peel(es, k);
    let epk = Seq::new(k as nat, |j: int| spec_stamp_entry(a[j]));
    assert(es.take(k) =~= epk);
    if k + 1 < a.len() {
        assert(join == entries_prefix(epk) + es[k] + ",\n"@ + rest);
        lemma_starts_split(s, pos + "{\n"@.len(), entries_prefix(epk) + es[k] + ",\n"@, rest);
        lemma_starts_split(s, pos + "{\n"@.len(), entries_prefix(epk) + es[k], ",\n"@);
        lemma_starts_split(s, pos + "{\n"@.len(), entries_prefix(epk), es[k]);
    } else {
        assert(join == entries_prefix(epk) + es[k]);
        lemma_starts_split(s, pos + "{\n"@.len(), entries_prefix(epk), es[k]);
    }
    lemma_starts_join(s, pos, "{\n"@, entries_prefix(epk));
    let q = pos + "{\n"@.len() + entries_prefix(epk).len();
    assert(s.subrange(pos, q) == "{\n"@ + entries_prefix(epk));
    q
}

/// Two stamps objects rendered onto the same text hold the same
/// stamps, field for field.
proof fn lemma_stamps_json_det(s: Seq<char>, pos: int, a: Seq<FileStamp>, b: Seq<FileStamp>, k: int)
    requires
        0 <= pos,
        starts_with_at(s, pos, spec_stamps_json(a)),
        starts_with_at(s, pos, spec_stamps_json(b)),
        0 <= k <= a.len(),
        k <= b.len(),
        forall|j: int| 0 <= j < k ==> stamp_eqv(#[trigger] a[j], b[j]),
    ensures
        a.len() == b.len(),
        forall|j: int| 0 <= j < a.len() ==> stamp_eqv(#[trigger] a[j], b[j]),
    decreases a.len() - k,
{
    reveal_strlit("{}");
    reveal_strlit("{\n");
    reveal_strlit(",\n");
    reveal_strlit("\n  }");
    reveal_strlit("    ");
    if a.len() == 0 && b.len() == 0 {
    } else if a.len() == 0 {
        assert(s.subrange(pos, pos + 2)[1] == s[pos + 1]);
        let es = Seq::new(b.len(), |j: int| spec_stamp_entry(b[j]));
        let join = crate::sqlgen::spec_join(es, ",\n"@);
        assert(spec_stamps_json(b) == "{\n"@ + join + "\n  }"@);
        lemma_starts_split(s, pos, "{\n"@ + join, "\n  }"@);
        lemma_starts_split(s, pos, "{\n"@, join);
        assert(s.subrange(pos, pos + 2)[1] == '}');
        assert(s.subrange(pos, pos + "{\n"@.len() as int)[1] == s[pos + 1]);
        assert(false);
    } else if b.len() == 0 {
        assert(s.subrange(pos, pos + 2)[1] == s[pos + 1]);
        let es = Seq::new(a.len(), |j: int| spec_stamp_entry(a[j]));
        let join = crate::sqlgen::spec_join(es, ",\n"@);
        assert(spec_stamps_json(a) == "{\n"@ + join + "\n  }"@);
        lemma_starts_split(s, pos, "{\n"@ + join, "\n  }"@);
        lemma_starts_split(s, pos, "{\n"@, join);
        assert(s.subrange(pos, pos + 2)[1] == '}');
        assert(s.subrange(pos, pos + "{\n"@.len() as int)[1] == s[pos + 1]);
        assert(false);
    } else if k < a.len() && k < b.len() {
        let q = lemma_stamps_prefix_at(s, pos, a, k);
        let parsed = a.take(k);
        assert(Seq::new(parsed.len(), |j: int| spec_stamp_entry(parsed[j])) =~= Seq::new(
            k as nat,
            |j: int| spec_stamp_entry(a[j]),
        ));
        assert(forall|j: int| 0 <= j < parsed.len() ==> stamp_eqv(#[trigger] parsed[j], a[j]));
        lemma_entry_position(s, pos, q, parsed, a);
        lemma_entry_position(s, pos, q, parsed, b);
        let ea = spec_stamp_entry(a[k]);
        assert(s.subrange(q, q + ea.len() as int) == ea);
        lemma_entry_det_at(s, q, q + ea.len() as int, a[k], b[k]);
        assert(forall|j: int| 0 <= j < k + 1 ==> stamp_eqv(#[trigger] a[j], b[j])) by {
            assert(forall|j: int| 0 <= j < k ==> stamp_eqv(#[trigger] a[j], b[j]));
        }
        lemma_stamps_json_det(s, pos, a, b, k + 1);
    } else if k == a.len() && k == b.len() {
    } else if k == a.len() {
        assert(k >= 1);
        let q = lemma_stamps_prefix_at(s, pos, a, k - 1);
        let parsed = a.take(k - 1);
        assert(Seq::new(parsed.len(), |j: int| spec_stamp_entry(parsed[j])) =~= Seq::new(
            (k - 1) as nat,
            |j: int| spec_stamp_entry(a[j]),
        ));
        assert(forall|j: int| 0 <= j < parsed.len() ==> stamp_eqv(#[trigger] parsed[j], a[j]));
        lemma_entry_position(s, pos, q, parsed, a);
        lemma_entry_position(s, pos, q, parsed, b);
        let e = spec_stamp_entry(a[k - 1]);
        let e2 = spec_stamp_entry(b[k - 1]);
        assert(e == e2);
        assert(s.subrange(q + e.len(), q + e.len() + 4)[0] == s[q + e.len()]);
        assert(s.subrange(q + e.len(), q + e.len() + 2)[0] == s[q + e.len()]);
        assert("\n  }"@[0] == '\n');
        assert(",\n"@[0] == ',');
        assert(false);
    } else {
        assert(k >= 1);
        let q = lemma_stamps_prefix_at(s, pos, b, k - 1);
        let parsed = b.take(k - 1);
        assert(Seq::new(parsed.len(), |j: int| spec_stamp_entry(parsed[j])) =~= Seq::new(
            (k - 1) as nat,
            |j: int| spec_stamp_entry(b[j]),
        ));
        assert(forall|j: int| 0 <= j < parsed.len() ==> stamp_eqv(#[trigger] parsed[j], b[j]));
        lemma_entry_position(s, pos, q, parsed, b);
        lemma_entry_position(s, pos, q, parsed, a);
        let e = spec_stamp_entry(b[k - 1]);
        let e2 = spec_stamp_entry(a[k - 1]);
        assert(e == e2);
        assert(s.subrange(q + e.len(), q + e.len() + 4)[0] == s[q + e.len()]);
        assert(s.subrange(q + e.len(), q + e.len() + 2)[0] == s[q + e.len()]);
        assert("\n  }"@[0] == '\n');
        assert(",\n"@[0] == ',');
        assert(false);
    }
}

/// The manifest document determines the manifest: two manifests that
/// render to the same text agree on the dataset, the mode, and every
/// field of every stamp. Together with the parser's two-sided
/// contract, a saved manifest loads back with exactly its content.
pub proof fn lemma_manifest_render_injective(m1: CacheMeta, m2: CacheMeta)
    requires
        spec_meta_json(m1) == spec_meta_json(m2),
    ensures
        m1.dataset@ == m2.dataset@,
        m1.mode == m2.mode,
        m1.stamps@.len() == m2.stamps@.len(),
        forall|j: int| 0 <= j < m1.stamps@.len() ==> stamp_eqv(#[trigger] m1.stamps@[j], m2.stamps@[j]),
{
    let s = spec_meta_json(m1);
    lemma_meta_pieces(s, m1);
    lemma_meta_pieces(s, m2);
    let a1 = "{\n  \"dataset\": "@.len() as int;
    assert(s.subrange(a1, a1 + spec_json_string(m1.dataset@).len() as int) == spec_json_string(
        m1.dataset@,
    ));
    lemma_jstr_det_at(
        s,
        a1,
        a1 + spec_json_string(m1.dataset@).len() as int,
        m1.dataset@,
        m2.dataset@,
    );
    let a3 = a1 + spec_json_string(m1.dataset@).len() + ",\n  \"mode\": "@.len();
    assert(s.subrange(a3, a3 + spec_json_string(spec_mode_name(m1.mode)).len() as int)
        == spec_json_string(spec_mode_name(m1.mode)));
    lemma_jstr_det_at(
        s,
        a3,
        a3 + spec_json_string(spec_mode_name(m1.mode)).len() as int,
        spec_mode_name(m1.mode),
        spec_mode_name(m2.mode),
    );
    assert(m1.mode == m2.mode) by {
        reveal_strlit("Single");
        reveal_strlit("Multi");
        if m1.mode != m2.mode {
            assert("Single"@.len() == 6 && "Multi"@.len() == 5);
        }
    }
    let a5 = a3 + spec_json_string(spec_mode_name(m1.mode)).len() + ",\n  \"stamps\": "@.len();
    lemma_stamps_json_det(s, a5, m1.stamps@, m2.stamps@, 0);
}

/// Where each piece of the manifest document stands.
proof fn lemma_meta_pieces(s: Seq<char>, m: CacheMeta)
    requires
        s == spec_meta_json(m),
    ensures
        ({
            let a1 = "{\n  \"dataset\": "@.len() as int;
            let a2 = a1 + spec_json_string(m.dataset@).len();
            let a3 = a2 + ",\n  \"mode\": "@.len();
            let a4 = a3 + spec_json_string(spec_mode_name(m.mode)).len();
            let a5 = a4 + ",\n  \"stamps\": "@.len();
            let a6 = a5 + spec_stamps_json(m.stamps@).len();
            &&& starts_with_at(s, 0, "{\n  \"dataset\": "@)
            &&& starts_with_at(s, a1, spec_json_string(m.dataset@))
            &&& starts_with_at(s, a2, ",\n  \"mode\": "@)
            &&& starts_with_at(s, a3, spec_json_string(spec_mode_name(m.mode)))
            &&& starts_with_at(s, a4, ",\n  \"stamps\": "@)
            &&& starts_with_at(s, a5, spec_stamps_json(m.stamps@))
            &&& starts_with_at(s, a6, "\n}"@)
            &&& s.len() == a6 + "\n}"@.len()
        }),
{
    let jd = spec_json_string(m.dataset@);
    let jm = spec_json_string(spec_mode_name(m.mode));
    let sj = spec_stamps_json(m.stamps@);
    assert(spec_meta_json(m) == "{\n  \"dataset\": "@ + jd + ",\n  \"mode\": "@ + jm
        + ",\n  \"stamps\": "@ + sj + "\n}"@);
    assert(starts_with_at(s, 0, spec_meta_json(m))) by {
        assert(s.subrange(0, spec_meta_json(m).len() as int) =~= s);
    }
    lemma_starts_split(
        s,
        0,
        "{\n  \"dataset\": "@ + jd + ",\n  \"mode\": "@ + jm + ",\n  \"stamps\": "@ + sj,
        "\n}"@,
    );
    lemma_starts_split(
        s,
        0,
        "{\n  \"dataset\": "@ + jd + ",\n  \"mode\": "@ + jm + ",\n  \"stamps\": "@,
        sj,
    );
    lemma_starts_split(s, 0, "{\n  \"dataset\": "@ + jd + ",\n  \"mode\": "@ + jm,
        ",\n  \"stamps\": "@);
    lemma_starts_split(s, 0, "{\n  \"dataset\": "@ + jd + ",\n  \"mode\": "@, jm);
    lemma_starts_split(s, 0, "{\n  \"dataset\": "@ + jd, ",\n  \"mode\": "@);
    lemma_starts_split(s, 0, "{\n  \"dataset\": "@, jd);
}

/// Parse the persisted manifest document. Only the canonical form the
/// emitter writes is accepted, in both directions: whatever parses is
/// an exact pre-image of the emitter with unique stamp keys, and when
/// the parse fails, no well-formed manifest renders to the text — so a
/// saved manifest always loads back, and anything else counts as
/// corrupt, which the caller treats as an absent manifest.
pub fn meta_from_json(s: &str) -> (r: Option<CacheMeta>)
    ensures
        match r {
            Some(meta) => s@ == spec_meta_json(meta) && meta.wf(),
            None => forall|m: CacheMeta| m.wf() ==> s@ != spec_meta_json(m),
        },
{
    let n: usize = s.unicode_len();
    let lit1_r = expect_lit(s, 0, "{\n  \"dataset\": ");
    proof {
        if lit1_r is None {
            assert forall|m: CacheMeta| m.wf() implies s@ != spec_meta_json(m) by {
                if s@ == spec_meta_json(m) {
                    lemma_meta_pieces(s@, m);
                }
            }
        }
    }
    let p1 = match lit1_r {
        Some(p) => p,
        None => {
            return None;
        },
    };
    let ds_r = parse_json_string(s, p1);
    proof {
        if ds_r is None {
            assert forall|m: CacheMeta| m.wf() implies s@ != spec_meta_json(m) by {
                if s@ == spec_meta_json(m) {
                    lemma_meta_pieces(s@, m);
                }
            }
        }
    }
    let (dataset, p2) = match ds_r {
        Some(x) => x,
        None => {
            return None;
        },
    };
    proof {
        assert forall|m: CacheMeta| m.wf() && s@ == spec_meta_json(m) implies dataset@
            == m.dataset@ && p2 == p1 + spec_json_string(m.dataset@).len() by {
            lemma_meta_pieces(s@, m);
            lemma_jstr_det_at(s@, p1 as int, p2 as int, dataset@, m.dataset@);
        }
    }
    let lit2_r = expect_lit(s, p2, ",\n  \"mode\": ");
    proof {
        if lit2_r is None {
            assert forall|m: CacheMeta| m.wf() implies s@ != spec_meta_json(m) by {
                if s@ == spec_meta_json(m) {
                    lemma_meta_pieces(s@, m);
                }
            }
        }
    }
    let p3 = match lit2_r {
        Some(p) => p,
        None => {
            return None;
        },
    };
    let mode_r = parse_json_string(s, p3);
    proof {
        if mode_r is None {
            assert forall|m: CacheMeta| m.wf() implies s@ != spec_meta_json(m) by {
                if s@ == spec_meta_json(m) {
                    lemma_meta_pieces(s@, m);
                }
            }
        }
    }
    let (mode_name, p4) = match mode_r {
        Some(x) => x,
        None => {
            return None;
        },
    };
    proof {
        assert forall|m: CacheMeta| m.wf() && s@ == spec_meta_json(m) implies mode_name@
            == spec_mode_name(m.mode) && p4 == p3 + spec_json_string(
            spec_mode_name(m.mode),
        ).len() by {
            lemma_meta_pieces(s@, m);
            lemma_jstr_det_at(s@, p3 as int, p4 as int, mode_name@, spec_mode_name(m.mode));
        }
    }
    let mode: RunMode = if str_eq(mode_name.as_str(), "Single") {
        RunMode::Single
    } else if str_eq(mode_name.as_str(), "Multi") {
        RunMode::Multi
    } else {
        proof {
            assert forall|m: CacheMeta| m.wf() implies s@ != spec_meta_json(m) by {
                if s@ == spec_meta_json(m) {
                    match m.mode {
                        RunMode::Single => {
                            assert(mode_name@ == "Single"@);
                        },
                        RunMode::Multi => {
                            assert(mode_name@ == "Multi"@);
                        },
                    }
                }
            }
        }
        return None;
    };
    let lit3_r = expect_lit(s, p4, ",\n  \"stamps\": ");
    proof {
        if lit3_r is None {
            assert forall|m: CacheMeta| m.wf() implies s@ != spec_meta_json(m) by {
                if s@ == spec_meta_json(m) {
                    lemma_meta_pieces(s@, m);
                }
            }
        }
    }
    let p5 = match lit3_r {
        Some(p) => p,
        None => {
            return None;
        },
    };
    let stamps_r = parse_stamps(s, p5);
    proof {
        if stamps_r is None {
            assert forall|m: CacheMeta| m.wf() implies s@ != spec_meta_json(m) by {
                if s@ == spec_meta_json(m) {
                    lemma_meta_pieces(s@, m);
                    assert(stamps_unique(m.stamps@));
                }
            }
        }
    }
    let (stamps, p6) = match stamps_r {
        Some(x) => x,
        None => {
            return None;
        },
    };
    proof {
        assert forall|m: CacheMeta| m.wf() && s@ == spec_meta_json(m) implies p6 == p5
            + spec_stamps_json(m.stamps@).len() by {
            lemma_meta_pieces(s@, m);
            assert(stamps_unique(m.stamps@));
        }
    }
    let lit4_r = expect_lit(s, p6, "\n}");
    proof {
        if lit4_r is None {
            assert forall|m: CacheMeta| m.wf() implies s@ != spec_meta_json(m) by {
                if s@ == spec_meta_json(m) {
                    lemma_meta_pieces(s@, m);
                }
            }
        }
    }
    let p7 = match lit4_r {
        Some(p) => p,
        None => {
            return None;
        },
    };
    if p7 != n {
        proof {
            assert forall|m: CacheMeta| m.wf() implies s@ != spec_meta_json(m) by {
                if s@ == spec_meta_json(m) {
                    lemma_meta_pieces(s@, m);
                }
            }
        }
        return None;
    }
    let meta = CacheMeta { dataset, mode, stamps };
    proof {
        assert(spec_json_string(mode_name@) == spec_json_string(spec_mode_name(mode)));
        lemma_subrange_concat(s@, 0, p1 as int, p2 as int);
        lemma_subrange_concat(s@, 0, p2 as int, p3 as int);
        lemma_subrange_concat(s@, 0, p3 as int, p4 as int);
        lemma_subrange_concat(s@, 0, p4 as int, p5 as int);
        lemma_subrange_concat(s@, 0, p5 as int, p6 as int);
        lemma_subrange_concat(s@, 0, p6 as int, p7 as int);
        assert(s@.subrange(0, n as int) =~= s@);
        assert(s@ =~= spec_meta_json(meta));
    }
    Some(meta)
}

} // verus!
