use vstd::prelude::*;

use crate::buflist::{BufList, Reader};
use crate::bytes::{
    le_bytes, le_value, lemma_le_round_trip, lemma_le_value_bound, lemma_pow_mono, lemma_pow128_9, lemma_pow256_16,
    lemma_varint_bound, lemma_varint_round_trip, parse_le, parse_varint, pow128, pow256, read_le,
    read_varint, varint_bytes, write_le, write_varint, Parsed, VARINT_MAX_BYTES,
};
use crate::error::Error;

verus! {

/// Whether a byte sequence is well-formed UTF-8.
pub uninterp spec fn utf8_valid(s: Seq<u8>) -> bool;

/// Relies on std::str::from_utf8: it succeeds exactly on well-formed UTF-8.
#[verifier::external_body]
fn is_utf8(b: &[u8]) -> (r: bool)
    ensures
        r == utf8_valid(b@),
{
    std::str::from_utf8(b).is_ok()
}

/// A column kind that holds one value per row.
#[derive(Clone, Copy, Debug, PartialEq, Eq, Structural)]
pub enum ScalarType {
    UInt8,
    UInt16,
    UInt32,
    UInt64,
    UInt128,
    Int8,
    Int16,
    Int32,
    Int64,
    Int128,
    Bool,
    /// Length-prefixed bytes.
    String,
    /// Exactly this many bytes.
    FixedString(usize),
}

/// The declared type of one column.
#[derive(Clone, Copy, Debug, PartialEq, Eq, Structural)]
pub enum ColumnType {
    Plain(ScalarType),
    Nullable(ScalarType),
    Array(ScalarType),
}

/// One scalar value of a row.
#[derive(Clone, Debug, PartialEq, Eq)]
pub enum Scalar {
    UInt(u128),
    Int(i128),
    Bool(bool),
    Bytes(Vec<u8>),
}

/// One column value of a row.
#[derive(Clone, Debug, PartialEq, Eq)]
pub enum Value {
    Plain(Scalar),
    Null,
    Array(Vec<Scalar>),
}

/// What a `Scalar` stands for.
pub enum ScalarModel {
    UInt(nat),
    Int(int),
    Bool(bool),
    Bytes(Seq<u8>),
}

/// What a `Value` stands for.
pub enum ValueModel {
    Plain(ScalarModel),
    Null,
    Array(Seq<ScalarModel>),
}

impl Scalar {
    pub open spec fn view(&self) -> ScalarModel {
        match self {
            Scalar::UInt(v) => ScalarModel::UInt(*v as nat),
            Scalar::Int(v) => ScalarModel::Int(*v as int),
            Scalar::Bool(b) => ScalarModel::Bool(*b),
            Scalar::Bytes(b) => ScalarModel::Bytes(b@),
        }
    }
}

pub open spec fn scalars_view(v: Seq<Scalar>) -> Seq<ScalarModel> {
    v.map_values(|x: Scalar| x.view())
}

impl Value {
    pub open spec fn view(&self) -> ValueModel {
        match self {
            Value::Plain(s) => ValueModel::Plain(s.view()),
            Value::Null => ValueModel::Null,
            Value::Array(a) => ValueModel::Array(scalars_view(a@)),
        }
    }
}

pub open spec fn row_view(v: Seq<Value>) -> Seq<ValueModel> {
    v.map_values(|x: Value| x.view())
}

/// Byte width of the fixed-width kinds; zero for the others.
pub open spec fn width(t: ScalarType) -> nat {
    match t {
        ScalarType::UInt8 | ScalarType::Int8 | ScalarType::Bool => 1,
        ScalarType::UInt16 | ScalarType::Int16 => 2,
        ScalarType::UInt32 | ScalarType::Int32 => 4,
        ScalarType::UInt64 | ScalarType::Int64 => 8,
        ScalarType::UInt128 | ScalarType::Int128 => 16,
        _ => 0,
    }
}

pub open spec fn is_unsigned(t: ScalarType) -> bool {
    matches!(t, ScalarType::UInt8 | ScalarType::UInt16 | ScalarType::UInt32 | ScalarType::UInt64 | ScalarType::UInt128)
}

pub open spec fn is_signed(t: ScalarType) -> bool {
    matches!(t, ScalarType::Int8 | ScalarType::Int16 | ScalarType::Int32 | ScalarType::Int64 | ScalarType::Int128)
}

/// Two's complement: the unsigned number with the same `n` bytes as `v`.
pub open spec fn to_unsigned(v: int, n: nat) -> nat {
    if v >= 0 {
        v as nat
    } else {
        (v + pow256(n)) as nat
    }
}

pub open spec fn to_signed(u: nat, n: nat) -> int {
    if u < pow256(n) / 2 {
        u as int
    } else {
        u - pow256(n)
    }
}

/// The longest string or array that a length prefix can state.
pub open spec fn max_len() -> nat {
    pow128(VARINT_MAX_BYTES as nat)
}

pub open spec fn scalar_valid(t: ScalarType, m: ScalarModel) -> bool {
    match m {
        ScalarModel::UInt(v) => is_unsigned(t) && v < pow256(width(t)),
        ScalarModel::Int(v) => is_signed(t) && -(pow256(width(t)) / 2) <= v < pow256(width(t)) / 2,
        ScalarModel::Bool(_) => t == ScalarType::Bool,
        ScalarModel::Bytes(b) => match t {
            ScalarType::String => b.len() < max_len() && utf8_valid(b),
            ScalarType::FixedString(n) => b.len() == n,
            _ => false,
        },
    }
}

pub open spec fn scalar_bytes(t: ScalarType, m: ScalarModel) -> Seq<u8> {
    match m {
        ScalarModel::UInt(v) => le_bytes(v, width(t)),
        ScalarModel::Int(v) => le_bytes(to_unsigned(v, width(t)), width(t)),
        ScalarModel::Bool(b) => seq![if b { 1u8 } else { 0u8 }],
        ScalarModel::Bytes(b) => match t {
            ScalarType::String => varint_bytes(b.len()) + b,
            _ => b,
        },
    }
}

pub open spec fn parse_scalar(t: ScalarType, s: Seq<u8>) -> Parsed<ScalarModel> {
    if is_unsigned(t) || is_signed(t) {
        match parse_le(s, width(t)) {
            Parsed::Done(u, n) => if is_unsigned(t) {
                Parsed::Done(ScalarModel::UInt(u), n)
            } else {
                Parsed::Done(ScalarModel::Int(to_signed(u, width(t))), n)
            },
            _ => Parsed::Short,
        }
    } else {
        match t {
            ScalarType::Bool => if s.len() == 0 {
                Parsed::Short
            } else if s[0] == 0 {
                Parsed::Done(ScalarModel::Bool(false), 1)
            } else if s[0] == 1 {
                Parsed::Done(ScalarModel::Bool(true), 1)
            } else {
                Parsed::Bad
            },
            ScalarType::FixedString(k) => if s.len() < k {
                Parsed::Short
            } else {
                Parsed::Done(ScalarModel::Bytes(s.take(k as int)), k as nat)
            },
            _ => match parse_varint(s, VARINT_MAX_BYTES as nat) {
                Parsed::Done(len, n) => if s.len() < n + len {
                    Parsed::Short
                } else if !utf8_valid(s.subrange(n as int, (n + len) as int)) {
                    Parsed::Bad
                } else {
                    Parsed::Done(ScalarModel::Bytes(s.subrange(n as int, (n + len) as int)), n + len)
                },
                Parsed::Short => Parsed::Short,
                Parsed::Bad => Parsed::Bad,
            },
        }
    }
}

pub open spec fn elems_valid(t: ScalarType, ms: Seq<ScalarModel>) -> bool {
    &&& ms.len() < max_len()
    &&& forall|i: int| 0 <= i < ms.len() ==> scalar_valid(t, #[trigger] ms[i])
}

pub open spec fn elems_bytes(t: ScalarType, ms: Seq<ScalarModel>) -> Seq<u8>
    decreases ms.len(),
{
    if ms.len() == 0 {
        Seq::empty()
    } else {
        elems_bytes(t, ms.drop_last()) + scalar_bytes(t, ms.last())
    }
}

/// Reads `k` scalars of kind `t` one after another.
pub open spec fn parse_elems(t: ScalarType, k: nat, s: Seq<u8>) -> Parsed<Seq<ScalarModel>>
    decreases k,
{
    if k == 0 {
        Parsed::Done(Seq::empty(), 0)
    } else {
        match parse_elems(t, (k - 1) as nat, s) {
            Parsed::Done(ms, n) => match parse_scalar(t, s.skip(n as int)) {
                Parsed::Done(m, j) => Parsed::Done(ms.push(m), n + j),
                Parsed::Short => Parsed::Short,
                Parsed::Bad => Parsed::Bad,
            },
            Parsed::Short => Parsed::Short,
            Parsed::Bad => Parsed::Bad,
        }
    }
}

pub open spec fn value_valid(c: ColumnType, v: ValueModel) -> bool {
    match (c, v) {
        (ColumnType::Plain(t), ValueModel::Plain(m)) => scalar_valid(t, m),
        (ColumnType::Nullable(t), ValueModel::Plain(m)) => scalar_valid(t, m),
        (ColumnType::Nullable(_), ValueModel::Null) => true,
        (ColumnType::Array(t), ValueModel::Array(ms)) => elems_valid(t, ms),
        _ => false,
    }
}

/// A nullable value starts with a flag byte, 1 for null; an array with its
/// element count.
pub open spec fn value_bytes(c: ColumnType, v: ValueModel) -> Seq<u8> {
    match (c, v) {
        (ColumnType::Plain(t), ValueModel::Plain(m)) => scalar_bytes(t, m),
        (ColumnType::Nullable(t), ValueModel::Plain(m)) => seq![0u8] + scalar_bytes(t, m),
        (ColumnType::Nullable(_), ValueModel::Null) => seq![1u8],
        (ColumnType::Array(t), ValueModel::Array(ms)) => varint_bytes(ms.len()) + elems_bytes(t, ms),
        _ => Seq::empty(),
    }
}

pub open spec fn parse_value(c: ColumnType, s: Seq<u8>) -> Parsed<ValueModel> {
    match c {
        ColumnType::Plain(t) => match parse_scalar(t, s) {
            Parsed::Done(m, n) => Parsed::Done(ValueModel::Plain(m), n),
            Parsed::Short => Parsed::Short,
            Parsed::Bad => Parsed::Bad,
        },
        ColumnType::Nullable(t) => if s.len() == 0 {
            Parsed::Short
        } else if s[0] == 1 {
            Parsed::Done(ValueModel::Null, 1)
        } else if s[0] == 0 {
            match parse_scalar(t, s.drop_first()) {
                Parsed::Done(m, n) => Parsed::Done(ValueModel::Plain(m), n + 1),
                Parsed::Short => Parsed::Short,
                Parsed::Bad => Parsed::Bad,
            }
        } else {
            Parsed::Bad
        },
        ColumnType::Array(t) => match parse_varint(s, VARINT_MAX_BYTES as nat) {
            Parsed::Done(k, n) => match parse_elems(t, k, s.skip(n as int)) {
                Parsed::Done(ms, j) => Parsed::Done(ValueModel::Array(ms), n + j),
                Parsed::Short => Parsed::Short,
                Parsed::Bad => Parsed::Bad,
            },
            Parsed::Short => Parsed::Short,
            Parsed::Bad => Parsed::Bad,
        },
    }
}

/// A row fits a schema: one valid value per column, in column order.
pub open spec fn row_valid(schema: Seq<ColumnType>, row: Seq<ValueModel>) -> bool {
    &&& schema.len() == row.len()
    &&& forall|i: int| 0 <= i < row.len() ==> value_valid(#[trigger] schema[i], row[i])
}

/// The RowBinary encoding of a row: its values' encodings, in column order.
pub open spec fn row_bytes(schema: Seq<ColumnType>, row: Seq<ValueModel>) -> Seq<u8>
    decreases row.len(),
{
    if row.len() == 0 || schema.len() == 0 {
        Seq::empty()
    } else {
        row_bytes(schema.drop_last(), row.drop_last()) + value_bytes(schema.last(), row.last())
    }
}

/// Reads one row of the schema from the front of `s`.
pub open spec fn parse_row(schema: Seq<ColumnType>, s: Seq<u8>) -> Parsed<Seq<ValueModel>>
    decreases schema.len(),
{
    if schema.len() == 0 {
        Parsed::Done(Seq::empty(), 0)
    } else {
        match parse_row(schema.drop_last(), s) {
            Parsed::Done(vs, n) => match parse_value(schema.last(), s.skip(n as int)) {
                Parsed::Done(v, j) => Parsed::Done(vs.push(v), n + j),
                Parsed::Short => Parsed::Short,
                Parsed::Bad => Parsed::Bad,
            },
            Parsed::Short => Parsed::Short,
            Parsed::Bad => Parsed::Bad,
        }
    }
}

} // verus!

verus! {

proof fn lemma_signed_fits(v: int, w: nat)
    requires
        w >= 1,
        -(pow256(w) / 2) <= v < pow256(w) / 2,
    ensures
        to_unsigned(v, w) < pow256(w),
        to_signed(to_unsigned(v, w), w) == v,
{
    assert(pow256(w) == 256 * pow256((w - 1) as nat));
}

proof fn lemma_scalar_round_trip(t: ScalarType, m: ScalarModel, rest: Seq<u8>)
    requires
        scalar_valid(t, m),
    ensures
        parse_scalar(t, scalar_bytes(t, m) + rest) == Parsed::Done(m, scalar_bytes(t, m).len()),
{
    let b = scalar_bytes(t, m);
    let s = b + rest;
    match m {
        ScalarModel::UInt(v) => {
            lemma_le_round_trip(v, width(t));
            assert(s.take(width(t) as int) =~= b);
        },
        ScalarModel::Int(v) => {
            lemma_signed_fits(v, width(t));
            lemma_le_round_trip(to_unsigned(v, width(t)), width(t));
            assert(s.take(width(t) as int) =~= b);
        },
        ScalarModel::Bool(x) => {
            assert(s[0] == b[0]);
        },
        ScalarModel::Bytes(x) => {
            if t == ScalarType::String {
                let vb = varint_bytes(x.len());
                assert(s =~= vb + (x + rest));
                lemma_varint_round_trip(x.len(), VARINT_MAX_BYTES as nat, x + rest);
                assert(s.subrange(vb.len() as int, (vb.len() + x.len()) as int) =~= x);
            } else {
                assert(s.take(x.len() as int) =~= x);
            }
        },
    }
}

proof fn lemma_elems_round_trip(t: ScalarType, ms: Seq<ScalarModel>, rest: Seq<u8>)
    requires
        forall|i: int| 0 <= i < ms.len() ==> scalar_valid(t, #[trigger] ms[i]),
    ensures
        parse_elems(t, ms.len(), elems_bytes(t, ms) + rest) == Parsed::Done(
            ms,
            elems_bytes(t, ms).len(),
        ),
    decreases ms.len(),
{
    if ms.len() > 0 {
        let dl = ms.drop_last();
        let head = elems_bytes(t, dl);
        let tail = scalar_bytes(t, ms.last());
        let s = elems_bytes(t, ms) + rest;
        assert(s =~= head + (tail + rest));
        assert(forall|i: int| 0 <= i < dl.len() ==> dl[i] == ms[i]);
        lemma_elems_round_trip(t, dl, tail + rest);
        assert(scalar_valid(t, ms[ms.len() - 1]));
        lemma_scalar_round_trip(t, ms.last(), rest);
        assert(s.skip(head.len() as int) =~= tail + rest);
        assert(dl.push(ms.last()) =~= ms);
    } else {
        assert(ms =~= Seq::<ScalarModel>::empty());
    }
}

proof fn lemma_value_round_trip(c: ColumnType, v: ValueModel, rest: Seq<u8>)
    requires
        value_valid(c, v),
    ensures
        parse_value(c, value_bytes(c, v) + rest) == Parsed::Done(v, value_bytes(c, v).len()),
{
    let s = value_bytes(c, v) + rest;
    match (c, v) {
        (ColumnType::Plain(t), ValueModel::Plain(m)) => {
            lemma_scalar_round_trip(t, m, rest);
        },
        (ColumnType::Nullable(t), ValueModel::Plain(m)) => {
            lemma_scalar_round_trip(t, m, rest);
            assert(s.drop_first() =~= scalar_bytes(t, m) + rest);
        },
        (ColumnType::Nullable(_), ValueModel::Null) => {
            assert(s[0] == 1u8);
        },
        (ColumnType::Array(t), ValueModel::Array(ms)) => {
            let vb = varint_bytes(ms.len());
            let eb = elems_bytes(t, ms);
            assert(s =~= vb + (eb + rest));
            lemma_varint_round_trip(ms.len(), VARINT_MAX_BYTES as nat, eb + rest);
            assert(s.skip(vb.len() as int) =~= eb + rest);
            lemma_elems_round_trip(t, ms, rest);
        },
        _ => {},
    }
}

/// Decoding inverts encoding: reading a valid row back from its encoding,
/// followed by any other bytes, gives that row and stops where the encoding
/// ends.
pub proof fn lemma_row_round_trip(schema: Seq<ColumnType>, row: Seq<ValueModel>, rest: Seq<u8>)
    requires
        row_valid(schema, row),
    ensures
        parse_row(schema, row_bytes(schema, row) + rest) == Parsed::Done(
            row,
            row_bytes(schema, row).len(),
        ),
    decreases row.len(),
{
    if row.len() > 0 {
        let ds = schema.drop_last();
        let dr = row.drop_last();
        let head = row_bytes(ds, dr);
        let tail = value_bytes(schema.last(), row.last());
        let s = row_bytes(schema, row) + rest;
        assert(s =~= head + (tail + rest));
        assert(forall|i: int| 0 <= i < dr.len() ==> dr[i] == row[i] && ds[i] == schema[i]);
        lemma_row_round_trip(ds, dr, tail + rest);
        assert(value_valid(schema[row.len() - 1], row[row.len() - 1]));
        lemma_value_round_trip(schema.last(), row.last(), rest);
        assert(s.skip(head.len() as int) =~= tail + rest);
        assert(dr.push(row.last()) =~= row);
    } else {
        assert(schema.len() == 0);
        assert(row =~= Seq::<ValueModel>::empty());
    }
}

} // verus!

verus! {

fn width_of(t: ScalarType) -> (r: usize)
    ensures
        r == width(t),
{
    match t {
        ScalarType::UInt8 | ScalarType::Int8 | ScalarType::Bool => 1,
        ScalarType::UInt16 | ScalarType::Int16 => 2,
        ScalarType::UInt32 | ScalarType::Int32 => 4,
        ScalarType::UInt64 | ScalarType::Int64 => 8,
        ScalarType::UInt128 | ScalarType::Int128 => 16,
        _ => 0,
    }
}

/// The largest unsigned number of `w` bytes.
fn unsigned_max(w: usize) -> (r: u128)
    requires
        w == 1 || w == 2 || w == 4 || w == 8 || w == 16,
    ensures
        r == pow256(w as nat) - 1,
        w >= 1,
        pow256(w as nat) == 256 * pow256((w - 1) as nat),
{
    proof {
        reveal_with_fuel(pow256, 17);
    }
    match w {
        1 => 0xff,
        2 => 0xffff,
        4 => 0xffff_ffff,
        8 => 0xffff_ffff_ffff_ffff,
        _ => 0xffff_ffff_ffff_ffff_ffff_ffff_ffff_ffff,
    }
}

fn check_scalar(t: ScalarType, x: &Scalar) -> (r: bool)
    ensures
        r == scalar_valid(t, x.view()),
{
    match x {
        Scalar::UInt(v) => {
            match t {
                ScalarType::UInt8 | ScalarType::UInt16 | ScalarType::UInt32 | ScalarType::UInt64
                | ScalarType::UInt128 => {
                    let m = unsigned_max(width_of(t));
                    *v <= m
                },
                _ => false,
            }
        },
        Scalar::Int(v) => {
            match t {
                ScalarType::Int8 | ScalarType::Int16 | ScalarType::Int32 | ScalarType::Int64
                | ScalarType::Int128 => {
                    let m = unsigned_max(width_of(t));
                    let h = (m / 2) as i128;
                    *v <= h && *v >= -h - 1
                },
                _ => false,
            }
        },
        Scalar::Bool(_) => t == ScalarType::Bool,
        Scalar::Bytes(b) => {
            proof {
                lemma_pow128_9();
            }
            match t {
                ScalarType::String => (b.len() as u128) < 0x8000_0000_0000_0000u128 && is_utf8(
                    b.as_slice(),
                ),
                ScalarType::FixedString(n) => b.len() == n,
                _ => false,
            }
        },
    }
}

fn write_bytes(out: &mut Vec<u8>, b: &Vec<u8>)
    ensures
        final(out)@ == old(out)@ + b@,
{
    let mut i: usize = 0;
    while i < b.len()
        invariant
            i <= b@.len(),
            out@ == old(out)@ + b@.take(i as int),
        decreases b@.len() - i,
    {
        out.push(b[i]);
        i = i + 1;
        assert(out@ =~= old(out)@ + b@.take(i as int));
    }
    assert(b@.take(i as int) =~= b@);
}

fn write_scalar(t: ScalarType, x: &Scalar, out: &mut Vec<u8>)
    requires
        scalar_valid(t, x.view()),
    ensures
        final(out)@ == old(out)@ + scalar_bytes(t, x.view()),
{
    match x {
        Scalar::UInt(v) => {
            write_le(out, *v, width_of(t));
        },
        Scalar::Int(v) => {
            let w = width_of(t);
            let m = unsigned_max(w);
            let u: u128 = if *v >= 0 {
                *v as u128
            } else {
                m - ((-(*v + 1)) as u128)
            };
            write_le(out, u, w);
        },
        Scalar::Bool(b) => {
            out.push(if *b { 1u8 } else { 0u8 });
            assert(final(out)@ =~= old(out)@ + scalar_bytes(t, x.view()));
        },
        Scalar::Bytes(b) => {
            match t {
                ScalarType::String => {
                    proof {
                        lemma_pow128_9();
                    }
                    write_varint(out, b.len() as u64);
                    write_bytes(out, b);
                    assert(final(out)@ =~= old(out)@ + scalar_bytes(t, x.view()));
                },
                _ => {
                    write_bytes(out, b);
                },
            }
        },
    }
}

fn check_value(c: ColumnType, v: &Value) -> (r: bool)
    ensures
        r == value_valid(c, v.view()),
{
    match (c, v) {
        (ColumnType::Plain(t), Value::Plain(x)) => check_scalar(t, x),
        (ColumnType::Nullable(t), Value::Plain(x)) => check_scalar(t, x),
        (ColumnType::Nullable(_), Value::Null) => true,
        (ColumnType::Array(t), Value::Array(xs)) => {
            proof {
                lemma_pow128_9();
            }
            if (xs.len() as u128) >= 0x8000_0000_0000_0000u128 {
                return false;
            }
            let ghost ms = scalars_view(xs@);
            let mut i: usize = 0;
            while i < xs.len()
                invariant
                    i <= xs@.len(),
                    ms == scalars_view(xs@),
                    v.view() == ValueModel::Array(ms),
                    c == ColumnType::Array(t),
                    xs@.len() < max_len(),
                    forall|j: int| 0 <= j < i ==> scalar_valid(t, #[trigger] ms[j]),
                decreases xs@.len() - i,
            {
                assert(ms[i as int] == xs@[i as int].view());
                if !check_scalar(t, &xs[i]) {
                    return false;
                }
                i = i + 1;
            }
            true
        },
        _ => false,
    }
}

fn write_elems(t: ScalarType, xs: &Vec<Scalar>, out: &mut Vec<u8>)
    requires
        forall|j: int| 0 <= j < xs@.len() ==> scalar_valid(t, #[trigger] scalars_view(xs@)[j]),
    ensures
        final(out)@ == old(out)@ + elems_bytes(t, scalars_view(xs@)),
{
    let ghost ms = scalars_view(xs@);
    let mut i: usize = 0;
    while i < xs.len()
        invariant
            i <= xs@.len(),
            ms == scalars_view(xs@),
            forall|j: int| 0 <= j < xs@.len() ==> scalar_valid(t, #[trigger] ms[j]),
            out@ == old(out)@ + elems_bytes(t, ms.take(i as int)),
        decreases xs@.len() - i,
    {
        assert(ms[i as int] == xs@[i as int].view());
        write_scalar(t, &xs[i], out);
        proof {
            assert(ms.take(i + 1).drop_last() =~= ms.take(i as int));
        }
        i = i + 1;
        assert(out@ =~= old(out)@ + elems_bytes(t, ms.take(i as int)));
    }
    assert(ms.take(i as int) =~= ms);
}

fn write_value(c: ColumnType, v: &Value, out: &mut Vec<u8>)
    requires
        value_valid(c, v.view()),
    ensures
        final(out)@ == old(out)@ + value_bytes(c, v.view()),
{
    match (c, v) {
        (ColumnType::Plain(t), Value::Plain(x)) => write_scalar(t, x, out),
        (ColumnType::Nullable(t), Value::Plain(x)) => {
            out.push(0u8);
            write_scalar(t, x, out);
            assert(final(out)@ =~= old(out)@ + value_bytes(c, v.view()));
        },
        (ColumnType::Nullable(_), Value::Null) => {
            out.push(1u8);
            assert(final(out)@ =~= old(out)@ + value_bytes(c, v.view()));
        },
        (ColumnType::Array(t), Value::Array(xs)) => {
            proof {
                lemma_pow128_9();
            }
            write_varint(out, xs.len() as u64);
            write_elems(t, xs, out);
            assert(final(out)@ =~= old(out)@ + value_bytes(c, v.view()));
        },
        _ => {},
    }
}

} // verus!

verus! {

/// Column `i` is the first place where `row` stops fitting `schema`: a value
/// that is not valid there, or the end of the shorter of the two.
pub open spec fn mismatch_at(schema: Seq<ColumnType>, row: Seq<ValueModel>, i: int) -> bool {
    &&& 0 <= i <= schema.len()
    &&& i <= row.len()
    &&& forall|j: int| 0 <= j < i ==> value_valid(#[trigger] schema[j], row[j])
    &&& (i < schema.len() && i < row.len()) ==> !value_valid(schema[i], row[i])
    &&& (i == schema.len() || i == row.len()) ==> schema.len() != row.len()
}

/// Appends the encoding of `row` to `out`. Where the row does not fit the
/// schema, leaves `out` as it was and names the first column that fails.
pub fn serialize_row(schema: &Vec<ColumnType>, row: &Vec<Value>, out: &mut Vec<u8>) -> (r: Result<
    (),
    Error,
>)
    ensures
        r is Ok <==> row_valid(schema@, row_view(row@)),
        r is Ok ==> final(out)@ == old(out)@ + row_bytes(schema@, row_view(row@)),
        r is Err ==> final(out)@ == old(out)@,
        r matches Err(e) ==> e matches Error::SchemaMismatch(i) && mismatch_at(
            schema@,
            row_view(row@),
            i as int,
        ),
{
    let ghost sv = schema@;
    let ghost rv = row_view(row@);
    let mut i: usize = 0;
    while i < schema.len() && i < row.len()
        invariant
            i <= sv.len(),
            i <= rv.len(),
            sv == schema@,
            rv == row_view(row@),
            forall|j: int| 0 <= j < i ==> value_valid(#[trigger] sv[j], rv[j]),
        decreases sv.len() - i,
    {
        assert(rv[i as int] == row@[i as int].view());
        if !check_value(schema[i], &row[i]) {
            return Err(Error::SchemaMismatch(i));
        }
        i = i + 1;
    }
    if schema.len() != row.len() {
        return Err(Error::SchemaMismatch(i));
    }
    let mut i: usize = 0;
    while i < schema.len()
        invariant
            i <= sv.len(),
            sv.len() == rv.len(),
            sv == schema@,
            rv == row_view(row@),
            forall|j: int| 0 <= j < sv.len() ==> value_valid(#[trigger] sv[j], rv[j]),
            out@ == old(out)@ + row_bytes(sv.take(i as int), rv.take(i as int)),
        decreases sv.len() - i,
    {
        assert(rv[i as int] == row@[i as int].view());
        assert(value_valid(sv[i as int], rv[i as int]));
        write_value(schema[i], &row[i], out);
        proof {
            assert(sv.take(i + 1).drop_last() =~= sv.take(i as int));
            assert(rv.take(i + 1).drop_last() =~= rv.take(i as int));
        }
        i = i + 1;
        assert(out@ =~= old(out)@ + row_bytes(sv.take(i as int), rv.take(i as int)));
    }
    assert(sv.take(i as int) =~= sv);
    assert(rv.take(i as int) =~= rv);
    Ok(())
}

/// Reads `len` bytes, if that many are left.
pub(crate) fn read_bytes(chain: &BufList, rd: &mut Reader, len: u64) -> (r: Option<Vec<u8>>)
    requires
        chain.wf(),
        chain.reader_wf(*old(rd)),
    ensures
        chain.reader_wf(*final(rd)),
        chain.rest(*old(rd)).len() >= len ==> (r matches Some(b) && b@ == chain.rest(
            *old(rd),
        ).take(len as int) && chain.reader_pos(*final(rd)) == chain.reader_pos(*old(rd)) + len),
        chain.rest(*old(rd)).len() < len ==> r is None,
{
    let ghost s = chain.rest(*rd);
    let ghost pos0 = chain.reader_pos(*rd);
    proof {
        chain.lemma_reader_pos(*rd);
    }
    let mut b: Vec<u8> = Vec::new();
    let mut i: u64 = 0;
    while i < len
        invariant
            chain.wf(),
            chain.reader_wf(*rd),
            i <= len,
            i <= s.len(),
            s == chain.rest(*old(rd)),
            pos0 == chain.reader_pos(*old(rd)),
            0 <= pos0 <= chain.view().len(),
            s == chain.view().skip(pos0),
            chain.reader_pos(*rd) == pos0 + i,
            b@ == s.take(i as int),
        decreases len - i,
    {
        match chain.read_byte(rd) {
            None => {
                return None;
            },
            Some(x) => {
                b.push(x);
                i = i + 1;
                assert(b@ =~= s.take(i as int));
            },
        }
    }
    Some(b)
}

fn read_scalar(t: ScalarType, chain: &BufList, rd: &mut Reader) -> (r: Result<Scalar, Error>)
    requires
        chain.wf(),
        chain.reader_wf(*old(rd)),
    ensures
        chain.reader_wf(*final(rd)),
        parse_scalar(t, chain.rest(*old(rd))) matches Parsed::Done(m, n) ==> (r matches Ok(x) && x.view() == m),
        parse_scalar(t, chain.rest(*old(rd))) matches Parsed::Done(m, n) ==> chain.reader_pos(*final(rd))
                == chain.reader_pos(*old(rd)) + n,
        parse_scalar(t, chain.rest(*old(rd))) is Short ==> r == Err::<Scalar, Error>(Error::InsufficientData),
        parse_scalar(t, chain.rest(*old(rd))) is Bad ==> r == Err::<Scalar, Error>(Error::MalformedData),
{
    let ghost s = chain.rest(*rd);
    let ghost pos0 = chain.reader_pos(*rd);
    proof {
        chain.lemma_reader_pos(*rd);
    }
    match t {
        ScalarType::Bool => {
            match chain.read_byte(rd) {
                None => {
                    assert(s.len() == 0);
                    Err(Error::InsufficientData)
                },
                Some(b) => {
                    assert(s.len() > 0 && s[0] == b);
                    if b == 0 {
                        Ok(Scalar::Bool(false))
                    } else if b == 1 {
                        Ok(Scalar::Bool(true))
                    } else {
                        Err(Error::MalformedData)
                    }
                },
            }
        },
        ScalarType::FixedString(k) => {
            match read_bytes(chain, rd, k as u64) {
                None => {
                    Err(Error::InsufficientData)
                },
                Some(b) => {
                    Ok(Scalar::Bytes(b))
                },
            }
        },
        ScalarType::String => {
            match read_varint(chain, rd, VARINT_MAX_BYTES) {
                Err(e) => Err(e),
                Ok(len) => {
                    let ghost n = chain.reader_pos(*rd) - pos0;
                    proof {
                        chain.lemma_reader_pos(*rd);
                        assert(chain.rest(*rd) =~= s.skip(n));
                        lemma_varint_bound(s, VARINT_MAX_BYTES as nat);
                        lemma_pow128_9();
                    }
                    match read_bytes(chain, rd, len) {
                        None => {
                            assert(s.len() < n + len);
                            Err(Error::InsufficientData)
                        },
                        Some(b) => {
                            assert(b@ =~= s.subrange(n, n + len));
                            if !is_utf8(b.as_slice()) {
                                return Err(Error::MalformedData);
                            }
                            Ok(Scalar::Bytes(b))
                        },
                    }
                },
            }
        },
        _ => {
            let w = width_of(t);
            match read_le(chain, rd, w) {
                None => Err(Error::InsufficientData),
                Some(u) => {
                    proof {
                        lemma_le_value_bound(s.take(w as int));
                        assert(is_unsigned(t) || is_signed(t));
                        lemma_pow256_16();
                        lemma_pow_mono(w as nat, 16);
                        assert(u as nat == le_value(s.take(w as int)));
                    }
                    match t {
                        ScalarType::UInt8 | ScalarType::UInt16 | ScalarType::UInt32
                        | ScalarType::UInt64 | ScalarType::UInt128 => {
                            Ok(Scalar::UInt(u))
                        },
                        _ => {
                            let m = unsigned_max(w);
                            proof {
                                let q = pow256((w - 1) as nat);
                                assert(pow256(w as nat) / 2 == 128 * q);
                                assert(m / 2 == 128 * q - 1);
                                lemma_pow256_16();
                                lemma_pow_mono(w as nat, 16);
                                assert(256 * q <= pow256(16));
                            }
                            if u <= m / 2 {
                                Ok(Scalar::Int(u as i128))
                            } else {
                                assert(m - u < 0x8000_0000_0000_0000_0000_0000_0000_0000);
                                Ok(Scalar::Int(-((m - u) as i128) - 1))
                            }
                        },
                    }
                },
            }
        },
    }
}

proof fn lemma_elems_stop(t: ScalarType, j: nat, k: nat, s: Seq<u8>)
    requires
        j <= k,
        !(parse_elems(t, j, s) is Done),
    ensures
        parse_elems(t, k, s) == parse_elems(t, j, s),
    decreases k,
{
    if j < k {
        lemma_elems_stop(t, j, (k - 1) as nat, s);
    }
}

fn read_value(c: ColumnType, chain: &BufList, rd: &mut Reader) -> (r: Result<Value, Error>)
    requires
        chain.wf(),
        chain.reader_wf(*old(rd)),
    ensures
        chain.reader_wf(*final(rd)),
        match parse_value(c, chain.rest(*old(rd))) {
            Parsed::Done(m, n) => r matches Ok(x) && x.view() == m && chain.reader_pos(*final(rd))
                == chain.reader_pos(*old(rd)) + n,
            Parsed::Short => r == Err::<Value, Error>(Error::InsufficientData),
            Parsed::Bad => r == Err::<Value, Error>(Error::MalformedData),
        },
{
    let ghost s = chain.rest(*rd);
    let ghost pos0 = chain.reader_pos(*rd);
    proof {
        chain.lemma_reader_pos(*rd);
    }
    match c {
        ColumnType::Plain(t) => match read_scalar(t, chain, rd) {
            Ok(x) => Ok(Value::Plain(x)),
            Err(e) => Err(e),
        },
        ColumnType::Nullable(t) => match chain.read_byte(rd) {
            None => {
                assert(s.len() == 0);
                Err(Error::InsufficientData)
            },
            Some(b) => {
                assert(s.len() > 0 && s[0] == b);
                if b == 1 {
                    Ok(Value::Null)
                } else if b == 0 {
                    assert(chain.rest(*rd) =~= s.drop_first());
                    match read_scalar(t, chain, rd) {
                        Ok(x) => Ok(Value::Plain(x)),
                        Err(e) => Err(e),
                    }
                } else {
                    Err(Error::MalformedData)
                }
            },
        },
        ColumnType::Array(t) => match read_varint(chain, rd, VARINT_MAX_BYTES) {
            Err(e) => Err(e),
            Ok(k) => {
                let ghost n = chain.reader_pos(*rd) - pos0;
                let ghost s2 = s.skip(n);
                proof {
                    lemma_varint_bound(s, VARINT_MAX_BYTES as nat);
                    lemma_pow128_9();
                    chain.lemma_reader_pos(*rd);
                    assert(chain.rest(*rd) =~= s2);
                }
                let mut xs: Vec<Scalar> = Vec::new();
                let mut j: u64 = 0;
                while j < k
                    invariant
                        chain.wf(),
                        chain.reader_wf(*rd),
                        j <= k,
                        0 <= pos0 + n <= chain.view().len(),
                        s2 == chain.view().skip(pos0 + n),
                        s == chain.rest(*old(rd)),
                        pos0 == chain.reader_pos(*old(rd)),
                        c == ColumnType::Array(t),
                        s2 == s.skip(n),
                        n >= 0,
                        parse_varint(s, VARINT_MAX_BYTES as nat) == Parsed::Done(k as nat, n as nat),
                        parse_elems(t, j as nat, s2) matches Parsed::Done(ms, used) && ms
                            == scalars_view(xs@) && chain.reader_pos(*rd) == pos0 + n + used,
                    decreases k - j,
                {
                    let ghost used = match parse_elems(t, j as nat, s2) {
                        Parsed::Done(_, u) => u,
                        _ => 0,
                    };
                    proof {
                        chain.lemma_reader_pos(*rd);
                        assert(chain.rest(*rd) =~= s2.skip(used as int));
                    }
                    match read_scalar(t, chain, rd) {
                        Err(e) => {
                            proof {
                                lemma_elems_stop(t, (j + 1) as nat, k as nat, s2);
                            }
                            return Err(e);
                        },
                        Ok(x) => {
                            let ghost before = xs@;
                            let ghost xv = x.view();
                            xs.push(x);
                            j = j + 1;
                            assert(scalars_view(xs@) =~= scalars_view(before).push(xv));
                        },
                    }
                }
                Ok(Value::Array(xs))
            },
        },
    }
}

/// The first column whose bytes cannot be read, when a row is malformed.
pub open spec fn bad_column(schema: Seq<ColumnType>, s: Seq<u8>) -> nat
    decreases schema.len(),
{
    if schema.len() == 0 {
        0
    } else if parse_row(schema.drop_last(), s) is Bad {
        bad_column(schema.drop_last(), s)
    } else {
        (schema.len() - 1) as nat
    }
}

/// The error for a malformed row: the failing column and its declared type.
pub open spec fn malformed_row(schema: Seq<ColumnType>, s: Seq<u8>) -> Error {
    Error::MalformedField(bad_column(schema, s) as usize, schema[bad_column(schema, s) as int])
}

proof fn lemma_bad_column(schema: Seq<ColumnType>, i: int, s: Seq<u8>)
    requires
        0 <= i < schema.len(),
        parse_row(schema.take(i), s) is Done,
        parse_row(schema.take(i + 1), s) is Bad,
    ensures
        bad_column(schema, s) == i,
    decreases schema.len(),
{
    if i + 1 == schema.len() {
        assert(schema.take(i + 1) =~= schema);
        assert(schema.drop_last() =~= schema.take(i));
    } else {
        let dl = schema.drop_last();
        assert(dl.take(i) =~= schema.take(i));
        assert(dl.take(i + 1) =~= schema.take(i + 1));
        lemma_row_stop(dl, i + 1, s);
        lemma_bad_column(dl, i, s);
    }
}

proof fn lemma_row_stop(schema: Seq<ColumnType>, i: int, s: Seq<u8>)
    requires
        0 <= i <= schema.len(),
        !(parse_row(schema.take(i), s) is Done),
    ensures
        parse_row(schema, s) == parse_row(schema.take(i), s),
    decreases schema.len(),
{
    if i == schema.len() {
        assert(schema.take(i) =~= schema);
    } else {
        assert(schema.drop_last().take(i) =~= schema.take(i));
        lemma_row_stop(schema.drop_last(), i, s);
    }
}

fn read_row(schema: &Vec<ColumnType>, chain: &BufList, rd: &mut Reader) -> (r: Result<
    Vec<Value>,
    Error,
>)
    requires
        chain.wf(),
        chain.reader_wf(*old(rd)),
    ensures
        chain.reader_wf(*final(rd)),
        match parse_row(schema@, chain.rest(*old(rd))) {
            Parsed::Done(m, n) => r matches Ok(x) && row_view(x@) == m && chain.reader_pos(
                *final(rd),
            ) == chain.reader_pos(*old(rd)) + n,
            Parsed::Short => r == Err::<Vec<Value>, Error>(Error::InsufficientData),
            Parsed::Bad => r == Err::<Vec<Value>, Error>(malformed_row(schema@, chain.rest(*old(rd)))),
        },
{
    let ghost s = chain.rest(*rd);
    let ghost pos0 = chain.reader_pos(*rd);
    let ghost sv = schema@;
    proof {
        chain.lemma_reader_pos(*rd);
        assert(sv.take(0) =~= Seq::<ColumnType>::empty());
    }
    let mut row: Vec<Value> = Vec::new();
    let mut i: usize = 0;
    while i < schema.len()
        invariant
            chain.wf(),
            chain.reader_wf(*rd),
            i <= sv.len(),
            sv == schema@,
            0 <= pos0 <= chain.view().len(),
            s == chain.view().skip(pos0),
            s == chain.rest(*old(rd)),
            pos0 == chain.reader_pos(*old(rd)),
            parse_row(sv.take(i as int), s) matches Parsed::Done(vs, used) && vs == row_view(
                row@,
            ) && chain.reader_pos(*rd) == pos0 + used,
        decreases sv.len() - i,
    {
        let ghost used = match parse_row(sv.take(i as int), s) {
            Parsed::Done(_, u) => u,
            _ => 0,
        };
        proof {
            chain.lemma_reader_pos(*rd);
            assert(chain.rest(*rd) =~= s.skip(used as int));
            assert(sv.take(i + 1).drop_last() =~= sv.take(i as int));
            assert(sv.take(i + 1).last() == sv[i as int]);
        }
        match read_value(schema[i], chain, rd) {
            Err(e) => {
                proof {
                    lemma_row_stop(sv, i + 1, s);
                    if e == Error::MalformedData {
                        lemma_bad_column(sv, i as int, s);
                    }
                }
                if e == Error::MalformedData {
                    return Err(Error::MalformedField(i, schema[i]));
                }
                return Err(e);
            },
            Ok(v) => {
                let ghost before = row@;
                let ghost vv = v.view();
                row.push(v);
                i = i + 1;
                assert(row_view(row@) =~= row_view(before).push(vv));
            },
        }
    }
    assert(sv.take(i as int) =~= sv);
    Ok(row)
}

/// Decodes the next row from the front of `chain` and consumes its bytes.
/// When the bytes held are too few for a whole row, or malformed, nothing is
/// consumed.
pub fn deserialize_row(schema: &Vec<ColumnType>, chain: &mut BufList) -> (r: Result<
    Vec<Value>,
    Error,
>)
    requires
        old(chain).wf(),
    ensures
        final(chain).wf(),
        match parse_row(schema@, old(chain).view()) {
            Parsed::Done(m, n) => r matches Ok(x) && row_view(x@) == m && final(chain).view()
                == old(chain).view().skip(n as int),
            Parsed::Short => r == Err::<Vec<Value>, Error>(Error::InsufficientData) && final(chain).view() == old(chain).view(),
            Parsed::Bad => r == Err::<Vec<Value>, Error>(malformed_row(schema@, old(chain).view()))
                && final(chain).view() == old(chain).view(),
        },
{
    let mut rd = chain.reader();
    proof {
        assert(chain.rest(rd) =~= chain.view());
    }
    let r = read_row(schema, chain, &mut rd);
    if r.is_ok() {
        chain.commit(rd);
    }
    r
}

} // verus!

verus! {

proof fn lemma_varint_prefix_short(v: nat, k: nat, j: int)
    requires
        1 <= k,
        v < pow128(k),
        0 <= j < varint_bytes(v).len(),
    ensures
        parse_varint(varint_bytes(v).take(j), k) == Parsed::<nat>::Short,
    decreases v,
{
    let p = varint_bytes(v).take(j);
    if j > 0 && v >= 128 {
        let q = pow128((k - 1) as nat);
        assert(v / 128 < q) by (nonlinear_arith)
            requires
                v < 128 * q,
        ;
        if k == 1 {
            assert(pow128(0) == 1);
        }
        assert(v / 128 < v) by (nonlinear_arith)
            requires
                v >= 128,
        ;
        assert(p.drop_first() =~= varint_bytes(v / 128).take(j - 1));
        lemma_varint_prefix_short(v / 128, (k - 1) as nat, j - 1);
        assert(p[0] == varint_bytes(v)[0]);
    }
}

proof fn lemma_scalar_prefix_short(t: ScalarType, m: ScalarModel, j: int)
    requires
        scalar_valid(t, m),
        0 <= j < scalar_bytes(t, m).len(),
    ensures
        parse_scalar(t, scalar_bytes(t, m).take(j)) == Parsed::<ScalarModel>::Short,
{
    let b = scalar_bytes(t, m);
    let p = b.take(j);
    match m {
        ScalarModel::UInt(v) => {
            lemma_le_round_trip(v, width(t));
        },
        ScalarModel::Int(v) => {
            lemma_le_round_trip(to_unsigned(v, width(t)), width(t));
        },
        ScalarModel::Bool(_) => {},
        ScalarModel::Bytes(x) => {
            if t == ScalarType::String {
                let vb = varint_bytes(x.len());
                if j < vb.len() {
                    assert(p =~= vb.take(j));
                    lemma_varint_prefix_short(x.len(), VARINT_MAX_BYTES as nat, j);
                } else {
                    assert(p =~= vb + x.take(j - vb.len()));
                    lemma_varint_round_trip(x.len(), VARINT_MAX_BYTES as nat, x.take(j - vb.len()));
                }
            }
        },
    }
}

proof fn lemma_elems_prefix_short(t: ScalarType, ms: Seq<ScalarModel>, j: int)
    requires
        forall|i: int| 0 <= i < ms.len() ==> scalar_valid(t, #[trigger] ms[i]),
        0 <= j < elems_bytes(t, ms).len(),
    ensures
        parse_elems(t, ms.len(), elems_bytes(t, ms).take(j)) == Parsed::<Seq<ScalarModel>>::Short,
    decreases ms.len(),
{
    let dl = ms.drop_last();
    let head = elems_bytes(t, dl);
    let tail = scalar_bytes(t, ms.last());
    let p = elems_bytes(t, ms).take(j);
    assert(forall|i: int| 0 <= i < dl.len() ==> dl[i] == ms[i]);
    assert(scalar_valid(t, ms[ms.len() - 1]));
    if j < head.len() {
        assert(p =~= head.take(j));
        lemma_elems_prefix_short(t, dl, j);
    } else {
        let part = tail.take(j - head.len());
        assert(p =~= head + part);
        lemma_elems_round_trip(t, dl, part);
        assert(p.skip(head.len() as int) =~= part);
        lemma_scalar_prefix_short(t, ms.last(), j - head.len());
    }
}

proof fn lemma_value_prefix_short(c: ColumnType, v: ValueModel, j: int)
    requires
        value_valid(c, v),
        0 <= j < value_bytes(c, v).len(),
    ensures
        parse_value(c, value_bytes(c, v).take(j)) == Parsed::<ValueModel>::Short,
{
    let p = value_bytes(c, v).take(j);
    match (c, v) {
        (ColumnType::Plain(t), ValueModel::Plain(m)) => {
            lemma_scalar_prefix_short(t, m, j);
        },
        (ColumnType::Nullable(t), ValueModel::Plain(m)) => {
            if j > 0 {
                assert(p.drop_first() =~= scalar_bytes(t, m).take(j - 1));
                lemma_scalar_prefix_short(t, m, j - 1);
            }
        },
        (ColumnType::Nullable(_), ValueModel::Null) => {},
        (ColumnType::Array(t), ValueModel::Array(ms)) => {
            let vb = varint_bytes(ms.len());
            let eb = elems_bytes(t, ms);
            if j < vb.len() {
                assert(p =~= vb.take(j));
                lemma_varint_prefix_short(ms.len(), VARINT_MAX_BYTES as nat, j);
            } else {
                let part = eb.take(j - vb.len());
                assert(p =~= vb + part);
                lemma_varint_round_trip(ms.len(), VARINT_MAX_BYTES as nat, part);
                assert(p.skip(vb.len() as int) =~= part);
                lemma_elems_prefix_short(t, ms, j - vb.len());
            }
        },
        _ => {},
    }
}

/// A row cut short is never mistaken for a row or for malformed data:
/// every strict prefix of a valid row's encoding reads as too short.
pub proof fn lemma_row_prefix_short(schema: Seq<ColumnType>, row: Seq<ValueModel>, j: int)
    requires
        row_valid(schema, row),
        0 <= j < row_bytes(schema, row).len(),
    ensures
        parse_row(schema, row_bytes(schema, row).take(j)) == Parsed::<Seq<ValueModel>>::Short,
    decreases row.len(),
{
    let ds = schema.drop_last();
    let dr = row.drop_last();
    let head = row_bytes(ds, dr);
    let tail = value_bytes(schema.last(), row.last());
    let p = row_bytes(schema, row).take(j);
    assert(forall|i: int| 0 <= i < dr.len() ==> dr[i] == row[i] && ds[i] == schema[i]);
    assert(value_valid(schema[row.len() - 1], row[row.len() - 1]));
    if j < head.len() {
        assert(p =~= head.take(j));
        lemma_row_prefix_short(ds, dr, j);
    } else {
        let part = tail.take(j - head.len());
        assert(p =~= head + part);
        lemma_row_round_trip(ds, dr, part);
        assert(p.skip(head.len() as int) =~= part);
        lemma_value_prefix_short(schema.last(), row.last(), j - head.len());
    }
}

} // verus!
