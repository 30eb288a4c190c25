//! Record values: decoding a serial type code and its bytes into a value.
use vstd::prelude::*;
use vstd::arithmetic::div_mod::{lemma_basic_div, lemma_div_denominator, lemma_fundamental_div_mod};
use vstd::utf8::{decode_utf8, encode_utf8, valid_utf8};

use crate::error::DbError;
use crate::text::{decimal, push_char, push_decimal, string_from_utf8};

verus! {

/// `256` to the power `n`.
pub open spec fn pow256(n: nat) -> nat
    decreases n,
{
    if n == 0 {
        1
    } else {
        256 * pow256((n - 1) as nat)
    }
}

/// The first `n` bytes of `b` read as a big-endian unsigned integer.
pub open spec fn be_uint(b: Seq<u8>, n: nat) -> nat
    decreases n,
{
    if n == 0 {
        0
    } else {
        be_uint(b, (n - 1) as nat) * 256 + b[n - 1] as nat
    }
}

/// The first `n` bytes of `b` read as a big-endian two's-complement integer.
pub open spec fn be_int(b: Seq<u8>, n: nat) -> int {
    let u = be_uint(b, n);
    if n > 0 && u * 2 >= pow256(n) {
        u - pow256(n)
    } else {
        u as int
    }
}

/// What a [`SerialValue`] holds, with blobs and texts as sequences.
pub enum ValueView {
    Null,
    Int8(i8),
    Int16(i16),
    Int24(i32),
    Int32(i32),
    Int48(i64),
    Int64(i64),
    /// The bits of an IEEE-754 double.
    Float64(u64),
    Zero,
    One,
    Blob(Seq<u8>),
    Text(Seq<char>),
}

/// One value of a record.
///
/// A floating-point value is held as the 64 bits of its IEEE-754 encoding.
#[derive(Debug, Clone)]
pub enum SerialValue {
    Null,
    Int8(i8),
    Int16(i16),
    Int24(i32),
    Int32(i32),
    Int48(i64),
    Int64(i64),
    Float64(u64),
    Zero,
    One,
    Blob(Vec<u8>),
    Text(String),
}

impl View for SerialValue {
    type V = ValueView;

    open spec fn view(&self) -> ValueView {
        match self {
            SerialValue::Null => ValueView::Null,
            SerialValue::Int8(i) => ValueView::Int8(*i),
            SerialValue::Int16(i) => ValueView::Int16(*i),
            SerialValue::Int24(i) => ValueView::Int24(*i),
            SerialValue::Int32(i) => ValueView::Int32(*i),
            SerialValue::Int48(i) => ValueView::Int48(*i),
            SerialValue::Int64(i) => ValueView::Int64(*i),
            SerialValue::Float64(f) => ValueView::Float64(*f),
            SerialValue::Zero => ValueView::Zero,
            SerialValue::One => ValueView::One,
            SerialValue::Blob(b) => ValueView::Blob(b@),
            SerialValue::Text(t) => ValueView::Text(t@),
        }
    }
}

/// The number of body bytes that serial type `t` takes.
pub open spec fn serial_width(t: u64) -> nat {
    if t <= 4 {
        t as nat
    } else if t == 5 {
        6
    } else if t == 6 || t == 7 {
        8
    } else if t <= 11 {
        0
    } else if t % 2 == 0 {
        ((t - 12) / 2) as nat
    } else {
        ((t - 13) / 2) as nat
    }
}

/// The value of serial type `t` whose body bytes are `p`, or `None` when
/// `t` is reserved or `p` is not valid text.
pub open spec fn value_of(t: u64, p: Seq<u8>) -> Option<ValueView> {
    if t == 0 {
        Some(ValueView::Null)
    } else if t == 1 {
        Some(ValueView::Int8(be_int(p, 1) as i8))
    } else if t == 2 {
        Some(ValueView::Int16(be_int(p, 2) as i16))
    } else if t == 3 {
        Some(ValueView::Int24(be_int(p, 3) as i32))
    } else if t == 4 {
        Some(ValueView::Int32(be_int(p, 4) as i32))
    } else if t == 5 {
        Some(ValueView::Int48(be_int(p, 6) as i64))
    } else if t == 6 {
        Some(ValueView::Int64(be_int(p, 8) as i64))
    } else if t == 7 {
        Some(ValueView::Float64(be_uint(p, 8) as u64))
    } else if t == 8 {
        Some(ValueView::Zero)
    } else if t == 9 {
        Some(ValueView::One)
    } else if t == 10 || t == 11 {
        None
    } else if t % 2 == 0 {
        Some(ValueView::Blob(p))
    } else if valid_utf8(p) {
        Some(ValueView::Text(decode_utf8(p)))
    } else {
        None
    }
}

/// Decoding a value of serial type `t` from the start of `b`: the value
/// and the number of bytes it takes. A reserved type, invalid text, or a
/// body that runs past the end of `b` fails with [`DbError::Record`].
pub open spec fn parse_value(t: u64, b: Seq<u8>) -> Result<(ValueView, nat), DbError> {
    let w = serial_width(t);
    if b.len() < w {
        Err(DbError::Record)
    } else {
        match value_of(t, b.subrange(0, w as int)) {
            Some(v) => Ok((v, w)),
            None => Err(DbError::Record),
        }
    }
}

/// The integer a value holds: the fixed-width integers and the literals
/// zero and one.
pub open spec fn integer_of(v: ValueView) -> Option<int> {
    match v {
        ValueView::Int8(i) => Some(i as int),
        ValueView::Int16(i) => Some(i as int),
        ValueView::Int24(i) => Some(i as int),
        ValueView::Int32(i) => Some(i as int),
        ValueView::Int48(i) => Some(i as int),
        ValueView::Int64(i) => Some(i as int),
        ValueView::Zero => Some(0),
        ValueView::One => Some(1),
        _ => None,
    }
}

/// A blob's bytes as a bracketed, comma-separated list of decimals.
pub open spec fn byte_list(b: Seq<u8>) -> Seq<char> {
    seq!['['] + byte_items(b) + seq![']']
}

/// The items of [`byte_list`], without the brackets.
pub open spec fn byte_items(b: Seq<u8>) -> Seq<char>
    decreases b.len(),
{
    if b.len() == 0 {
        Seq::empty()
    } else if b.len() == 1 {
        decimal(b[0] as int)
    } else {
        byte_items(b.drop_last()) + seq![',', ' '] + decimal(b.last() as int)
    }
}

/// The text form of a value: integers in decimal, text as it is, a blob as
/// a list of its bytes, NULL as `(null)`. A floating-point value has none.
pub open spec fn text_form(v: ValueView) -> Option<Seq<char>> {
    match v {
        ValueView::Null => Some(seq!['(', 'n', 'u', 'l', 'l', ')']),
        ValueView::Float64(_) => None,
        ValueView::Text(t) => Some(t),
        ValueView::Blob(b) => Some(byte_list(b)),
        _ => Some(decimal(integer_of(v).unwrap())),
    }
}

pub(crate) proof fn lemma_pow256_values()
    ensures
        pow256(0) == 1,
        pow256(1) == 0x100,
        pow256(2) == 0x1_0000,
        pow256(3) == 0x100_0000,
        pow256(4) == 0x1_0000_0000,
        pow256(5) == 0x100_0000_0000,
        pow256(6) == 0x1_0000_0000_0000,
        pow256(7) == 0x100_0000_0000_0000,
        pow256(8) == 0x1_0000_0000_0000_0000,
{
    reveal_with_fuel(pow256, 9);
}

pub(crate) proof fn lemma_be_uint_bound(b: Seq<u8>, n: nat)
    ensures
        be_uint(b, n) < pow256(n),
    decreases n,
{
    if n > 0 {
        lemma_be_uint_bound(b, (n - 1) as nat);
        let p = be_uint(b, (n - 1) as nat);
        let q = pow256((n - 1) as nat);
        assert(p * 256 + 255 < q * 256) by (nonlinear_arith)
            requires
                p < q,
        ;
    }
}

proof fn lemma_be_uint_prefix(b: Seq<u8>, c: Seq<u8>, n: nat)
    requires
        n <= b.len(),
        n <= c.len(),
        forall|j: int| 0 <= j < n ==> b[j] == c[j],
    ensures
        be_uint(b, n) == be_uint(c, n),
    decreases n,
{
    if n > 0 {
        lemma_be_uint_prefix(b, c, (n - 1) as nat);
    }
}

/// Reads `n` bytes at `pos` in `data` as a big-endian unsigned integer.
pub(crate) fn read_be(data: &[u8], pos: usize, n: usize) -> (r: u64)
    requires
        n <= 8,
        pos + n <= data@.len(),
    ensures
        r as nat == be_uint(data@.subrange(pos as int, data@.len() as int), n as nat),
        (r as nat) < pow256(n as nat),
{
    let ghost b = data@.subrange(pos as int, data@.len() as int);
    let len = data.len();
    let mut acc: u64 = 0;
    let mut i: usize = 0;
    while i < n
        invariant
            b == data@.subrange(pos as int, data@.len() as int),
            len == data@.len(),
            n <= 8,
            pos + n <= data@.len(),
            i <= n,
            acc as nat == be_uint(b, i as nat),
        decreases n - i,
    {
        proof {
            lemma_be_uint_bound(b, i as nat);
            lemma_pow256_values();
            lemma_pow256_monotone(i as nat, 7);
            assert(b[i as int] == data@[pos + i]);
        }
        acc = acc * 256 + data[pos + i] as u64;
        i = i + 1;
    }
    proof {
        lemma_be_uint_bound(b, n as nat);
    }
    acc
}

proof fn lemma_pow256_monotone(a: nat, b: nat)
    requires
        a <= b,
    ensures
        pow256(a) <= pow256(b),
    decreases b - a,
{
    if a < b {
        lemma_pow256_monotone(a, (b - 1) as nat);
    }
}

/// `u`, an `n`-byte unsigned integer, read as two's complement.
fn to_signed(u: u64, n: usize) -> (r: i64)
    requires
        1 <= n <= 8,
        (u as nat) < pow256(n as nat),
    ensures
        r as int == (if (u as nat) * 2 >= pow256(n as nat) {
            u - pow256(n as nat)
        } else {
            u as int
        }),
        -pow256(n as nat) <= r * 2 < pow256(n as nat),
{
    proof {
        lemma_pow256_values();
    }
    if n == 8 {
        if u >= 0x8000_0000_0000_0000 {
            let c = !u;
            assert(c == 0xFFFF_FFFF_FFFF_FFFFu64 - u) by (bit_vector)
                requires
                    c == !u,
            ;
            -(c as i64) - 1
        } else {
            u as i64
        }
    } else {
        let full: u64 = if n == 1 {
            0x100
        } else if n == 2 {
            0x1_0000
        } else if n == 3 {
            0x100_0000
        } else if n == 4 {
            0x1_0000_0000
        } else if n == 5 {
            0x100_0000_0000
        } else if n == 6 {
            0x1_0000_0000_0000
        } else {
            0x100_0000_0000_0000
        };
        if u * 2 >= full {
            u as i64 - full as i64
        } else {
            u as i64
        }
    }
}

/// Reads `n` bytes at `pos` as a big-endian two's-complement integer.
fn read_be_signed(data: &[u8], pos: usize, n: usize) -> (r: i64)
    requires
        1 <= n <= 8,
        pos + n <= data@.len(),
    ensures
        r as int == be_int(data@.subrange(pos as int, data@.len() as int), n as nat),
        -pow256(n as nat) <= r * 2 < pow256(n as nat),
{
    let u = read_be(data, pos, n);
    proof {
        lemma_be_uint_bound(data@.subrange(pos as int, data@.len() as int), n as nat);
    }
    to_signed(u, n)
}

/// The `n` bytes of `u` in big-endian order.
pub open spec fn be_bytes(u: nat, n: nat) -> Seq<u8> {
    Seq::new(n, |j: int| ((u / pow256((n - 1 - j) as nat)) % 256) as u8)
}

/// `i` as an `n`-byte two's-complement bit pattern.
pub open spec fn twos_complement(i: int, n: nat) -> nat {
    if i < 0 {
        (i + pow256(n)) as nat
    } else {
        i as nat
    }
}

/// The serial type that a value is stored with.
pub open spec fn serial_type_of(v: ValueView) -> u64 {
    match v {
        ValueView::Null => 0,
        ValueView::Int8(_) => 1,
        ValueView::Int16(_) => 2,
        ValueView::Int24(_) => 3,
        ValueView::Int32(_) => 4,
        ValueView::Int48(_) => 5,
        ValueView::Int64(_) => 6,
        ValueView::Float64(_) => 7,
        ValueView::Zero => 8,
        ValueView::One => 9,
        ValueView::Blob(b) => (12 + 2 * b.len()) as u64,
        ValueView::Text(t) => (13 + 2 * encode_utf8(t).len()) as u64,
    }
}

/// The body bytes that a value is stored as.
pub open spec fn value_bytes(v: ValueView) -> Seq<u8> {
    match v {
        ValueView::Int8(i) => be_bytes(twos_complement(i as int, 1), 1),
        ValueView::Int16(i) => be_bytes(twos_complement(i as int, 2), 2),
        ValueView::Int24(i) => be_bytes(twos_complement(i as int, 3), 3),
        ValueView::Int32(i) => be_bytes(twos_complement(i as int, 4), 4),
        ValueView::Int48(i) => be_bytes(twos_complement(i as int, 6), 6),
        ValueView::Int64(i) => be_bytes(twos_complement(i as int, 8), 8),
        ValueView::Float64(f) => be_bytes(f as nat, 8),
        ValueView::Blob(b) => b,
        ValueView::Text(t) => encode_utf8(t),
        _ => Seq::empty(),
    }
}

/// Whether a value can be stored: a 24-bit or 48-bit integer within its
/// range, a blob or text whose serial type fits 64 bits.
pub open spec fn storable(v: ValueView) -> bool {
    match v {
        ValueView::Int24(i) => -0x80_0000 <= i < 0x80_0000,
        ValueView::Int48(i) => -0x8000_0000_0000 <= i < 0x8000_0000_0000,
        ValueView::Blob(b) => 12 + 2 * b.len() <= u64::MAX,
        ValueView::Text(t) => 13 + 2 * encode_utf8(t).len() <= u64::MAX,
        _ => true,
    }
}

proof fn lemma_be_bytes_read(u: nat, n: nat, rest: Seq<u8>, k: nat)
    requires
        k <= n,
        u < pow256(n),
    ensures
        be_uint(be_bytes(u, n) + rest, k) == u / pow256((n - k) as nat),
    decreases k,
{
    let b = be_bytes(u, n) + rest;
    if k == 0 {
        lemma_basic_div(u as int, pow256(n) as int);
    } else {
        lemma_be_bytes_read(u, n, rest, (k - 1) as nat);
        let p = pow256((n - k) as nat);
        lemma_pow256_positive((n - k) as nat);
        lemma_div_denominator(u as int, p as int, 256);
        assert(pow256((n - (k - 1)) as nat) == p * 256);
        lemma_fundamental_div_mod((u / p) as int, 256);
        assert(b[k - 1] == ((u / p) % 256) as u8);
    }
}

proof fn lemma_pow256_positive(n: nat)
    ensures
        pow256(n) > 0,
    decreases n,
{
    if n > 0 {
        lemma_pow256_positive((n - 1) as nat);
    }
}

proof fn lemma_int_round_trip(i: int, n: nat, rest: Seq<u8>)
    requires
        1 <= n <= 8,
        -pow256(n) <= 2 * i < pow256(n),
    ensures
        be_int(be_bytes(twos_complement(i, n), n) + rest, n) == i,
        be_bytes(twos_complement(i, n), n).len() == n,
{
    let u = twos_complement(i, n);
    lemma_pow256_positive(n);
    assert(u < pow256(n));
    assert(pow256(0) == 1) by {
        reveal_with_fuel(pow256, 1);
    }
    lemma_be_bytes_read(u, n, rest, n);
    assert((n - n) as nat == 0);
    assert(u / pow256(0) == u);
    assert(be_uint(be_bytes(u, n) + rest, n) == u);
    if i < 0 {
        assert(u * 2 >= pow256(n));
    } else {
        assert(u * 2 < pow256(n));
    }
}

/// Storing a value and decoding it again, with any bytes after it, gives
/// the value back and consumes exactly its stored bytes.
pub proof fn lemma_value_round_trip(v: ValueView, rest: Seq<u8>)
    requires
        storable(v),
    ensures
        parse_value(serial_type_of(v), value_bytes(v) + rest) == Ok::<(ValueView, nat), DbError>(
            (v, value_bytes(v).len()),
        ),
{
    lemma_pow256_values();
    let t = serial_type_of(v);
    let b = value_bytes(v) + rest;
    let w = value_bytes(v).len();
    assert(serial_width(t) == w);
    assert(b.subrange(0, w as int) == value_bytes(v));
    let p = value_bytes(v);
    let q = b.subrange(0, w as int);
    match v {
        ValueView::Int8(i) => {
            lemma_int_round_trip(i as int, 1, Seq::empty());
            assert(p + Seq::<u8>::empty() == p);
        },
        ValueView::Int16(i) => {
            lemma_int_round_trip(i as int, 2, Seq::empty());
            assert(p + Seq::<u8>::empty() == p);
        },
        ValueView::Int24(i) => {
            lemma_int_round_trip(i as int, 3, Seq::empty());
            assert(p + Seq::<u8>::empty() == p);
        },
        ValueView::Int32(i) => {
            lemma_int_round_trip(i as int, 4, Seq::empty());
            assert(p + Seq::<u8>::empty() == p);
        },
        ValueView::Int48(i) => {
            lemma_int_round_trip(i as int, 6, Seq::empty());
            assert(p + Seq::<u8>::empty() == p);
        },
        ValueView::Int64(i) => {
            lemma_int_round_trip(i as int, 8, Seq::empty());
            assert(p + Seq::<u8>::empty() == p);
        },
        ValueView::Float64(f) => {
            lemma_be_bytes_read(f as nat, 8, Seq::empty(), 8);
            assert(p + Seq::<u8>::empty() == p);
            assert((f as nat) / pow256(0) == f as nat);
            assert(be_uint(q, 8) == f as nat);
        },
        ValueView::Text(s) => {
            vstd::utf8::encode_utf8_valid_utf8(s);
            vstd::utf8::encode_utf8_decode_utf8(s);
        },
        ValueView::Blob(bytes) => {
            assert(t >= 12 && t % 2 == 0);
            assert(value_of(t, q) == Some(ValueView::Blob(bytes)));
        },
        _ => {},
    }
}

impl SerialValue {
    /// Decodes the value of serial type `serial_type` whose body starts at
    /// `pos` in `data`, returning it with the position just past its body.
    pub fn read(serial_type: u64, data: &[u8], pos: usize) -> (r: Result<
        (SerialValue, usize),
        DbError,
    >)
        requires
            pos <= data@.len(),
        ensures
            match (r, parse_value(serial_type, data@.subrange(pos as int, data@.len() as int))) {
                (Ok((v, next)), Ok((m, w))) => v@ == m && next == pos + w,
                (Err(e), Err(f)) => e == f,
                _ => false,
            },
    {
        let ghost b = data@.subrange(pos as int, data@.len() as int);
        let t = serial_type;
        let width: u64 = if t <= 4 {
            t
        } else if t == 5 {
            6
        } else if t == 6 || t == 7 {
            8
        } else if t <= 11 {
            0
        } else if t % 2 == 0 {
            (t - 12) / 2
        } else {
            (t - 13) / 2
        };
        let avail = data.len() - pos;
        if width > avail as u64 {
            return Err(DbError::Record);
        }
        let w = width as usize;
        let ghost p = b.subrange(0, w as int);
        proof {
            assert forall|j: int| 0 <= j < w implies p[j] == b[j] by {}
            lemma_be_uint_prefix(p, b, w as nat);
            lemma_pow256_values();
        }
        let v = if t == 0 {
            SerialValue::Null
        } else if t == 1 {
            let x = read_be_signed(data, pos, 1);
            SerialValue::Int8(x as i8)
        } else if t == 2 {
            let x = read_be_signed(data, pos, 2);
            SerialValue::Int16(x as i16)
        } else if t == 3 {
            let x = read_be_signed(data, pos, 3);
            SerialValue::Int24(x as i32)
        } else if t == 4 {
            let x = read_be_signed(data, pos, 4);
            SerialValue::Int32(x as i32)
        } else if t == 5 {
            let x = read_be_signed(data, pos, 6);
            SerialValue::Int48(x)
        } else if t == 6 {
            let x = read_be_signed(data, pos, 8);
            SerialValue::Int64(x)
        } else if t == 7 {
            SerialValue::Float64(read_be(data, pos, 8))
        } else if t == 8 {
            SerialValue::Zero
        } else if t == 9 {
            SerialValue::One
        } else if t == 10 || t == 11 {
            return Err(DbError::Record);
        } else {
            let mut bytes: Vec<u8> = Vec::new();
            let mut i: usize = 0;
            let len = data.len();
            while i < w
                invariant
                    len == data@.len(),
                    i <= w,
                    pos + w <= data@.len(),
                    p == data@.subrange(pos as int, pos + w),
                    bytes@ == p.subrange(0, i as int),
                decreases w - i,
            {
                bytes.push(data[pos + i]);
                i = i + 1;
                proof {
                    assert(bytes@ == p.subrange(0, i as int));
                }
            }
            proof {
                assert(bytes@ == p);
            }
            if t % 2 == 0 {
                SerialValue::Blob(bytes)
            } else {
                match string_from_utf8(bytes) {
                    Some(s) => SerialValue::Text(s),
                    None => {
                        return Err(DbError::Record);
                    },
                }
            }
        };
        Ok((v, pos + w))
    }

    /// The integer this value holds, if it is an integer or one of the
    /// literals zero and one.
    pub fn as_integer(&self) -> (r: Option<i64>)
        ensures
            match integer_of(self@) {
                Some(i) => r == Some(i as i64) && i == r.unwrap() as int,
                None => r is None,
            },
    {
        match self {
            SerialValue::Int8(i) => Some(*i as i64),
            SerialValue::Int16(i) => Some(*i as i64),
            SerialValue::Int24(i) => Some(*i as i64),
            SerialValue::Int32(i) => Some(*i as i64),
            SerialValue::Int48(i) => Some(*i),
            SerialValue::Int64(i) => Some(*i),
            SerialValue::Zero => Some(0),
            SerialValue::One => Some(1),
            _ => None,
        }
    }

    /// The integer this value holds, as a row-id, when it is non-negative.
    pub fn as_rowid(&self) -> (r: Option<u64>)
        ensures
            match integer_of(self@) {
                Some(i) => if i >= 0 {
                    r == Some(i as u64) && r.unwrap() as int == i
                } else {
                    r is None
                },
                None => r is None,
            },
    {
        match self.as_integer() {
            Some(i) => if i >= 0 {
                Some(i as u64)
            } else {
                None
            },
            None => None,
        }
    }

    /// The integer this value holds, as an index, when it is non-negative
    /// and fits a `usize`.
    pub fn as_usize(&self) -> (r: Option<usize>)
        ensures
            match integer_of(self@) {
                Some(i) => if 0 <= i <= usize::MAX {
                    r == Some(i as usize) && r.unwrap() as int == i
                } else {
                    r is None
                },
                None => r is None,
            },
    {
        match self.as_integer() {
            Some(i) => if i >= 0 && i as u64 <= usize::MAX as u64 {
                Some(i as usize)
            } else {
                None
            },
            None => None,
        }
    }

    /// A copy of this value.
    pub fn copied(&self) -> (r: SerialValue)
        ensures
            r@ == self@,
    {
        match self {
            SerialValue::Null => SerialValue::Null,
            SerialValue::Int8(i) => SerialValue::Int8(*i),
            SerialValue::Int16(i) => SerialValue::Int16(*i),
            SerialValue::Int24(i) => SerialValue::Int24(*i),
            SerialValue::Int32(i) => SerialValue::Int32(*i),
            SerialValue::Int48(i) => SerialValue::Int48(*i),
            SerialValue::Int64(i) => SerialValue::Int64(*i),
            SerialValue::Float64(f) => SerialValue::Float64(*f),
            SerialValue::Zero => SerialValue::Zero,
            SerialValue::One => SerialValue::One,
            SerialValue::Blob(b) => SerialValue::Blob(crate::btree_page::copy_bytes(b.as_slice())),
            SerialValue::Text(t) => SerialValue::Text(t.clone()),
        }
    }

    /// Whether this value is NULL.
    pub fn is_null(&self) -> (r: bool)
        ensures
            r == (self@ == ValueView::Null),
    {
        match self {
            SerialValue::Null => true,
            _ => false,
        }
    }

    /// The text form of this value; `None` for a floating-point value.
    pub fn text_form(&self) -> (r: Option<String>)
        ensures
            match text_form(self@) {
                Some(t) => r matches Some(s) && s@ == t,
                None => r is None,
            },
    {
        match self {
            SerialValue::Float64(_) => None,
            SerialValue::Text(t) => Some(t.clone()),
            SerialValue::Blob(b) => {
                let mut s = String::new();
                push_char(&mut s, '[');
                let mut i: usize = 0;
                while i < b.len()
                    invariant
                        i <= b@.len(),
                        s@ == seq!['['] + byte_items(b@.subrange(0, i as int)),
                    decreases b@.len() - i,
                {
                    let ghost before = s@;
                    if i > 0 {
                        push_char(&mut s, ',');
                        push_char(&mut s, ' ');
                    }
                    push_decimal(&mut s, b[i] as i64);
                    proof {
                        let next = b@.subrange(0, i + 1);
                        assert(next.drop_last() == b@.subrange(0, i as int));
                        assert(next.last() == b@[i as int]);
                        if i == 0 {
                            assert(next.len() == 1);
                            assert(s@ == seq!['['] + byte_items(next));
                        } else {
                            assert(s@ == seq!['['] + byte_items(next));
                        }
                    }
                    i = i + 1;
                }
                push_char(&mut s, ']');
                proof {
                    assert(b@.subrange(0, b@.len() as int) == b@);
                }
                Some(s)
            },
            SerialValue::Null => {
                let mut s = String::new();
                push_char(&mut s, '(');
                push_char(&mut s, 'n');
                push_char(&mut s, 'u');
                push_char(&mut s, 'l');
                push_char(&mut s, 'l');
                push_char(&mut s, ')');
                Some(s)
            },
            _ => {
                let mut s = String::new();
                match self.as_integer() {
                    Some(i) => {
                        push_decimal(&mut s, i);
                        proof {
                            assert(s@ == decimal(i as int));
                        }
                        Some(s)
                    },
                    None => None,
                }
            },
        }
    }
}

} // verus!
