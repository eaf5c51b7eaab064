use vstd::prelude::*;

use crate::text::{dec_i64, spec_dec_int, spec_trim, to_owned_string, trim};

verus! {

/// The inferred type of one column, ordered as a small lattice:
/// `Unknown` below `Bool`, `Int` and `Double`, and `Text` on top.
#[derive(Clone, Copy, Debug, PartialEq, Eq, Structural)]
pub enum ColType {
    Unknown,
    Bool,
    Int,
    Double,
    Text,
}

/// What the pipeline reads of a floating-point cell. The numeric value
/// itself stays outside the verified core: the caller that converts a
/// workbook row records the raw bit pattern together with the facts
/// the inference and load rules branch on.
#[derive(Clone, Debug)]
pub struct FloatCell {
    /// The IEEE-754 bit pattern, carried through to the engine loader.
    pub bits: u64,
    /// Finite with zero fractional part.
    pub int_like: bool,
    /// The value lies within the bounds of `i64`.
    pub in_i64: bool,
    /// The integer value, meaningful when `int_like` and `in_i64` hold.
    pub trunc: i64,
    /// The value rendered as text, as the workbook layer formats it.
    pub text: String,
}

/// One workbook cell, as handed to the verified pipeline.
/// `Other` stands for the kinds the pipeline does not type (dates,
/// times, errors), already rendered as text.
#[derive(Clone, Debug)]
pub enum Cell {
    Empty,
    Text(String),
    Bool(bool),
    Int(i64),
    Float(FloatCell),
    Other(String),
}

/// A native string cell counts as blank when nothing but whitespace
/// surrounds nothing.
pub open spec fn blank_text(s: Seq<char>) -> bool {
    spec_trim(s).len() == 0
}

/// One step of the promotion lattice: the column type after seeing one
/// more cell.
pub open spec fn spec_merge(cur: ColType, c: Cell) -> ColType {
    match c {
        Cell::Empty => cur,
        Cell::Text(s) => if blank_text(s@) {
            cur
        } else {
            ColType::Text
        },
        Cell::Bool(_) => match cur {
            ColType::Unknown | ColType::Bool => ColType::Bool,
            _ => ColType::Text,
        },
        Cell::Int(_) => match cur {
            ColType::Unknown | ColType::Int => ColType::Int,
            ColType::Double => ColType::Double,
            ColType::Bool | ColType::Text => ColType::Text,
        },
        Cell::Float(f) => match cur {
            ColType::Unknown | ColType::Int => if f.int_like {
                ColType::Int
            } else {
                ColType::Double
            },
            ColType::Double => ColType::Double,
            ColType::Bool | ColType::Text => ColType::Text,
        },
        Cell::Other(_) => ColType::Text,
    }
}

/// Merge one cell into the running column type.
pub fn merge_type(cur: ColType, c: &Cell) -> (r: ColType)
    ensures
        r == spec_merge(cur, *c),
{
    match c {
        Cell::Empty => cur,
        Cell::Text(s) => {
            let t = trim(s.as_str());
            if t.as_str().is_empty() {
                cur
            } else {
                ColType::Text
            }
        },
        Cell::Bool(_) => match cur {
            ColType::Unknown | ColType::Bool => ColType::Bool,
            _ => ColType::Text,
        },
        Cell::Int(_) => match cur {
            ColType::Unknown | ColType::Int => ColType::Int,
            ColType::Double => ColType::Double,
            ColType::Bool | ColType::Text => ColType::Text,
        },
        Cell::Float(f) => match cur {
            ColType::Unknown | ColType::Int => if f.int_like {
                ColType::Int
            } else {
                ColType::Double
            },
            ColType::Double => ColType::Double,
            ColType::Bool | ColType::Text => ColType::Text,
        },
        Cell::Other(_) => ColType::Text,
    }
}

/// The column types after merging every cell of one row, column-wise;
/// a row shorter than the type list leaves the missing columns as they
/// were.
pub open spec fn spec_infer_row(types: Seq<ColType>, row: Seq<Cell>) -> Seq<ColType> {
    Seq::new(
        types.len(),
        |i: int|
            if i < row.len() {
                spec_merge(types[i], row[i])
            } else {
                types[i]
            },
    )
}

/// The column types after merging a sequence of rows in order.
pub open spec fn spec_infer(types: Seq<ColType>, rows: Seq<Vec<Cell>>) -> Seq<ColType>
    decreases rows.len(),
{
    if rows.len() == 0 {
        types
    } else {
        spec_infer_row(spec_infer(types, rows.drop_last()), rows.last()@)
    }
}

/// Columns that never saw a typed cell are loaded as text.
pub open spec fn spec_finalize(types: Seq<ColType>) -> Seq<ColType> {
    types.map_values(
        |t: ColType|
            if t == ColType::Unknown {
                ColType::Text
            } else {
                t
            },
    )
}

/// The inference start: everything unknown.
pub open spec fn unknown_cols(n: nat) -> Seq<ColType> {
    Seq::new(n, |i: int| ColType::Unknown)
}

/// A type list that has reached `Text` everywhere is a fixpoint of the
/// merge: further rows cannot change it.
proof fn lemma_infer_text_fixpoint(types: Seq<ColType>, rows: Seq<Vec<Cell>>)
    requires
        forall|i: int| 0 <= i < types.len() ==> types[i] == ColType::Text,
    ensures
        spec_infer(types, rows) == types,
    decreases rows.len(),
{
    if rows.len() > 0 {
        lemma_infer_text_fixpoint(types, rows.drop_last());
        assert(spec_infer_row(types, rows.last()@) =~= types);
    }
}

/// Infer the column types from a prefix of the data rows: merge cell
/// by cell, stop early once every column is text, and finalize unknown
/// columns to text.
pub fn infer_col_types(rows: &Vec<Vec<Cell>>, ncols: usize, max_rows: usize) -> (types: Vec<
    ColType,
>)
    ensures
        types@ == spec_finalize(
            spec_infer(
                unknown_cols(ncols as nat),
                rows@.take(if max_rows <= rows@.len() {
                    max_rows as int
                } else {
                    rows@.len() as int
                }),
            ),
        ),
{
    let limit: usize = if max_rows <= rows.len() {
        max_rows
    } else {
        rows.len()
    };
    let mut types: Vec<ColType> = Vec::new();
    let mut k: usize = 0;
    while k < ncols
        invariant
            k <= ncols,
            types@ =~= unknown_cols(k as nat),
        decreases ncols - k,
    {
        types.push(ColType::Unknown);
        proof {
            assert(types@ =~= unknown_cols((k + 1) as nat));
        }
        k += 1;
    }
    let mut r: usize = 0;
    while r < limit
        invariant
            limit <= rows@.len(),
            r <= limit,
            types@.len() == ncols,
            types@ == spec_infer(unknown_cols(ncols as nat), rows@.take(r as int)),
        decreases limit - r,
    {
        let row = &rows[r];
        let ghost tsnap = types@;
        let rlen: usize = row.len();
        let mut i: usize = 0;
        while i < ncols
            invariant
                i <= ncols,
                rlen == row@.len(),
                types@.len() == ncols,
                tsnap.len() == ncols,
                forall|j: int| 0 <= j < i ==> types@[j] == spec_infer_row(tsnap, row@)[j],
                forall|j: int| i <= j < ncols ==> types@[j] == tsnap[j],
            decreases ncols - i,
        {
            if i < rlen {
                let merged = merge_type(types[i], &row[i]);
                types.set(i, merged);
            }
            i += 1;
        }
        proof {
            assert(types@ =~= spec_infer_row(tsnap, row@));
            let sub1 = rows@.take(r + 1);
            assert(sub1.drop_last() =~= rows@.take(r as int));
            assert(sub1.last() == rows@[r as int]);
        }
        let mut all_text: bool = true;
        let mut i2: usize = 0;
        while i2 < ncols
            invariant
                i2 <= ncols,
                types@.len() == ncols,
                all_text <==> (forall|j: int| 0 <= j < i2 ==> types@[j] == ColType::Text),
            decreases ncols - i2,
        {
            if !(types[i2] == ColType::Text) {
                all_text = false;
            }
            i2 += 1;
        }
        r += 1;
        if all_text {
            proof {
                let all = rows@.take(limit as int);
                lemma_infer_prefix(unknown_cols(ncols as nat), all, r as int);
                assert(all.take(r as int) =~= rows@.take(r as int));
                lemma_infer_text_fixpoint(types@, all.skip(r as int));
                assert(types@ == spec_infer(unknown_cols(ncols as nat), rows@.take(limit as int)));
            }
            r = limit;
            proof {
                assert(types@ == spec_infer(unknown_cols(ncols as nat), rows@.take(r as int)));
            }
        }
    }
    proof {
        assert(rows@.take(limit as int) =~= rows@.take(
            if max_rows <= rows@.len() {
                max_rows as int
            } else {
                rows@.len() as int
            },
        ));
    }
    let n: usize = types.len();
    let mut out: Vec<ColType> = Vec::new();
    let mut i3: usize = 0;
    while i3 < n
        invariant
            n == types@.len(),
            i3 <= n,
            out@ =~= spec_finalize(types@.take(i3 as int)),
        decreases n - i3,
    {
        let t = types[i3];
        out.push(
            if t == ColType::Unknown {
                ColType::Text
            } else {
                t
            },
        );
        proof {
            assert(out@ =~= spec_finalize(types@.take(i3 + 1)));
        }
        i3 += 1;
    }
    proof {
        assert(types@.take(n as int) =~= types@);
    }
    out
}

/// The numeric payload of a `Double` column slot: either the raw bit
/// pattern of a floating cell, or an integer cell to be widened by the
/// engine loader.
#[derive(Clone, Copy, Debug)]
pub enum FloatVal {
    Bits(u64),
    FromInt(i64),
}

/// One typed value handed to the engine's bulk appender, `None`
/// standing for NULL.
#[derive(Clone, Debug)]
pub enum Slot {
    Text(String),
    Int(Option<i64>),
    Float(Option<FloatVal>),
    Bool(Option<bool>),
}

/// A cell rendered as text, as the load rules coerce it.
pub open spec fn spec_cell_text(c: Cell) -> Seq<char> {
    match c {
        Cell::Empty => Seq::<char>::empty(),
        Cell::Text(s) => spec_trim(s@),
        Cell::Bool(b) => if b {
            "true"@
        } else {
            "false"@
        },
        Cell::Int(i) => spec_dec_int(i as int),
        Cell::Float(f) => f.text@,
        Cell::Other(s) => spec_trim(s@),
    }
}

/// Coerce a cell to text.
pub fn cell_to_text(c: &Cell) -> (r: String)
    ensures
        r@ == spec_cell_text(*c),
{
    match c {
        Cell::Empty => String::new(),
        Cell::Text(s) => trim(s.as_str()),
        Cell::Bool(b) => if *b {
            to_owned_string("true")
        } else {
            to_owned_string("false")
        },
        Cell::Int(i) => dec_i64(*i),
        Cell::Float(f) => f.text.clone(),
        Cell::Other(s) => trim(s.as_str()),
    }
}

/// The text a cell contributes to a text column, a missing cell
/// contributing the empty string.
pub open spec fn spec_opt_cell_text(c: Option<Cell>) -> Seq<char> {
    match c {
        None => Seq::<char>::empty(),
        Some(cell) => spec_cell_text(cell),
    }
}

/// The slot a cell fills in a column of the given type. A missing cell
/// (row shorter than the header) is NULL; a cell whose kind does not
/// fit the column is NULL rather than silently re-parsed. An integer
/// column accepts an integer, or a float that is finite, fraction-free
/// and within the bounds of `i64`.
pub open spec fn spec_slot_ok(t: ColType, c: Option<Cell>, s: Slot) -> bool {
    match t {
        ColType::Text | ColType::Unknown => s matches Slot::Text(x) && x@ == spec_opt_cell_text(c),
        ColType::Bool => s == Slot::Bool(
            match c {
                Some(Cell::Bool(b)) => Some(b),
                _ => None,
            },
        ),
        ColType::Int => s == Slot::Int(
            match c {
                Some(Cell::Int(i)) => Some(i),
                Some(Cell::Float(f)) => if f.int_like && f.in_i64 {
                    Some(f.trunc)
                } else {
                    None
                },
                _ => None,
            },
        ),
        ColType::Double => s == Slot::Float(
            match c {
                Some(Cell::Int(i)) => Some(FloatVal::FromInt(i)),
                Some(Cell::Float(f)) => Some(FloatVal::Bits(f.bits)),
                _ => None,
            },
        ),
    }
}

/// The cell of a row at a column index, `None` past the row's end.
pub open spec fn cell_at(row: Seq<Cell>, i: int) -> Option<Cell> {
    if 0 <= i < row.len() {
        Some(row[i])
    } else {
        None
    }
}

/// Fill the slot of column `i` of one row.
pub fn fill_slot(t: ColType, row: &Vec<Cell>, i: usize) -> (s: Slot)
    ensures
        spec_slot_ok(t, cell_at(row@, i as int), s),
{
    let c: Option<&Cell> = if i < row.len() {
        Some(&row[i])
    } else {
        None
    };
    match t {
        ColType::Text | ColType::Unknown => Slot::Text(
            match c {
                None => String::new(),
                Some(cell) => cell_to_text(cell),
            },
        ),
        ColType::Bool => Slot::Bool(
            match c {
                Some(Cell::Bool(b)) => Some(*b),
                _ => None,
            },
        ),
        ColType::Int => Slot::Int(
            match c {
                Some(Cell::Int(v)) => Some(*v),
                Some(Cell::Float(f)) => if f.int_like && f.in_i64 {
                    Some(f.trunc)
                } else {
                    None
                },
                _ => None,
            },
        ),
        ColType::Double => Slot::Float(
            match c {
                Some(Cell::Int(v)) => Some(FloatVal::FromInt(*v)),
                Some(Cell::Float(f)) => Some(FloatVal::Bits(f.bits)),
                _ => None,
            },
        ),
    }
}

/// Convert one data row into the typed slots of every column.
pub fn row_slots(row: &Vec<Cell>, types: &Vec<ColType>) -> (slots: Vec<Slot>)
    ensures
        slots@.len() == types@.len(),
        forall|k: int|
            0 <= k < types@.len() ==> spec_slot_ok(types@[k], cell_at(row@, k), #[trigger] slots@[k]),
{
    let n: usize = types.len();
    let mut slots: Vec<Slot> = Vec::new();
    let mut i: usize = 0;
    while i < n
        invariant
            n == types@.len(),
            i <= n,
            slots@.len() == i,
            forall|k: int|
                0 <= k < i ==> spec_slot_ok(types@[k], cell_at(row@, k), #[trigger] slots@[k]),
        decreases n - i,
    {
        let s = fill_slot(types[i], row, i);
        slots.push(s);
        i += 1;
    }
    slots
}

/// A cell that an integer column may have seen during inference:
/// empty, blank text, an integer, or a fraction-free float.
pub open spec fn int_compatible(c: Cell) -> bool {
    match c {
        Cell::Empty => true,
        Cell::Text(s) => blank_text(s@),
        Cell::Int(_) => true,
        Cell::Float(f) => f.int_like,
        Cell::Bool(_) => false,
        Cell::Other(_) => false,
    }
}

proof fn lemma_infer_int_origin(types: Seq<ColType>, rows: Seq<Vec<Cell>>, i: int)
    requires
        0 <= i < types.len(),
        spec_infer(types, rows)[i] == ColType::Int,
    ensures
        types[i] == ColType::Unknown || types[i] == ColType::Int,
        forall|r: int|
            0 <= r < rows.len() && i < rows[r]@.len() ==> int_compatible(#[trigger] rows[r]@[i]),
    decreases rows.len(),
{
    if rows.len() > 0 {
        let head = rows.drop_last();
        let mid = spec_infer(types, head);
        assert(spec_infer(types, rows) == spec_infer_row(mid, rows.last()@));
        assert(mid.len() == types.len()) by {
            lemma_infer_len(types, head);
        }
        if i < rows.last()@.len() {
            assert(spec_merge(mid[i], rows.last()@[i]) == ColType::Int);
        }
        assert(mid[i] == ColType::Int || mid[i] == ColType::Unknown);
        if mid[i] == ColType::Int {
            lemma_infer_int_origin(types, head, i);
        } else {
            lemma_infer_unknown_origin(types, head, i);
        }
        assert(forall|r: int| 0 <= r < head.len() ==> head[r] == rows[r]);
        assert(rows[rows.len() - 1] == rows.last());
    }
}

proof fn lemma_infer_unknown_origin(types: Seq<ColType>, rows: Seq<Vec<Cell>>, i: int)
    requires
        0 <= i < types.len(),
        spec_infer(types, rows)[i] == ColType::Unknown,
    ensures
        types[i] == ColType::Unknown,
        forall|r: int|
            0 <= r < rows.len() && i < rows[r]@.len() ==> int_compatible(#[trigger] rows[r]@[i]),
    decreases rows.len(),
{
    if rows.len() > 0 {
        let head = rows.drop_last();
        let mid = spec_infer(types, head);
        assert(spec_infer(types, rows) == spec_infer_row(mid, rows.last()@));
        assert(mid.len() == types.len()) by {
            lemma_infer_len(types, head);
        }
        if i < rows.last()@.len() {
            assert(spec_merge(mid[i], rows.last()@[i]) == ColType::Unknown);
        }
        assert(mid[i] == ColType::Unknown);
        lemma_infer_unknown_origin(types, head, i);
        assert(forall|r: int| 0 <= r < head.len() ==> head[r] == rows[r]);
        assert(rows[rows.len() - 1] == rows.last());
    }
}

proof fn lemma_infer_len(types: Seq<ColType>, rows: Seq<Vec<Cell>>)
    ensures
        spec_infer(types, rows).len() == types.len(),
    decreases rows.len(),
{
    if rows.len() > 0 {
        lemma_infer_len(types, rows.drop_last());
    }
}

/// Type-inference soundness for integer columns. When the inference
/// sample finalizes a column as `Int`, every sampled cell of that
/// column was empty, blank text, an integer, or a fraction-free float;
/// and any slot loaded into that column — from any row, sampled or not
/// — is NULL or a value exactly representable in `i64`: an integer
/// cell's own value, or the integer value of a finite float with zero
/// fractional part within the bounds of `i64`. No float with a nonzero
/// fractional part ever enters the column.
pub proof fn lemma_int_column_soundness(
    ncols: nat,
    sample: Seq<Vec<Cell>>,
    i: int,
    c: Option<Cell>,
    s: Slot,
)
    requires
        0 <= i < ncols,
        spec_finalize(spec_infer(unknown_cols(ncols), sample))[i] == ColType::Int,
        spec_slot_ok(ColType::Int, c, s),
    ensures
        forall|r: int|
            0 <= r < sample.len() && i < sample[r]@.len() ==> int_compatible(
                #[trigger] sample[r]@[i],
            ),
        s matches Slot::Int(v) && match v {
            None => true,
            Some(x) => (c matches Some(Cell::Int(y)) && x == y) || (c matches Some(Cell::Float(f))
                && f.int_like && f.in_i64 && x == f.trunc),
        },
{
    lemma_infer_len(unknown_cols(ncols), sample);
    assert(spec_infer(unknown_cols(ncols), sample)[i] == ColType::Int);
    lemma_infer_int_origin(unknown_cols(ncols), sample, i);
}

/// Running inference over a row sequence equals running it over a
/// prefix and then over the rest.
proof fn lemma_infer_prefix(types: Seq<ColType>, rows: Seq<Vec<Cell>>, mid: int)
    requires
        0 <= mid <= rows.len(),
    ensures
        spec_infer(types, rows) == spec_infer(spec_infer(types, rows.take(mid)), rows.skip(mid)),
    decreases rows.len() - mid,
{
    if mid == rows.len() {
        assert(rows.take(mid) =~= rows);
        assert(rows.skip(mid) =~= Seq::<Vec<Cell>>::empty());
    } else {
        lemma_infer_split_last(types, rows, mid);
    }
}

/// Helper: peel the last row off the suffix.
proof fn lemma_infer_split_last(types: Seq<ColType>, rows: Seq<Vec<Cell>>, mid: int)
    requires
        0 <= mid < rows.len(),
    ensures
        spec_infer(types, rows) == spec_infer(spec_infer(types, rows.take(mid)), rows.skip(mid)),
    decreases rows.len(),
{
    let head = rows.drop_last();
    assert(spec_infer(types, rows) == spec_infer_row(spec_infer(types, head), rows.last()@));
    if mid == rows.len() - 1 {
        assert(rows.take(mid) =~= head);
        let pre = spec_infer(types, rows.take(mid));
        let suffix = rows.skip(mid);
        assert(suffix.len() == 1);
        assert(suffix.last() == rows.last());
        assert(suffix.drop_last() =~= Seq::<Vec<Cell>>::empty());
        assert(spec_infer(pre, suffix) == spec_infer_row(
            spec_infer(pre, suffix.drop_last()),
            suffix.last()@,
        ));
        assert(spec_infer(pre, suffix.drop_last()) == pre);
    } else {
        lemma_infer_split_last(types, head, mid);
        assert(head.take(mid) =~= rows.take(mid));
        let pre = spec_infer(types, rows.take(mid));
        let s1 = head.skip(mid);
        let s2 = rows.skip(mid);
        assert(s2.len() > 0);
        assert(s2.drop_last() =~= s1);
        assert(s2.last() == rows.last());
        assert(spec_infer(pre, s2) == spec_infer_row(spec_infer(pre, s1), s2.last()@));
        assert(spec_infer(types, head) == spec_infer(pre, s1));
    }
}

} // verus!
