//! SQLite varints: big-endian base-128 integers of one to nine bytes.
use vstd::arithmetic::div_mod::{lemma_basic_div, lemma_div_denominator, lemma_fundamental_div_mod};
use vstd::prelude::*;

use crate::error::DbError;

verus! {

/// `128` to the power `n`.
pub open spec fn pow128(n: nat) -> nat
    decreases n,
{
    if n == 0 {
        1
    } else {
        128 * pow128((n - 1) as nat)
    }
}

/// The low seven bits of the first `n` bytes of `b`, read as one number,
/// most significant first.
pub open spec fn seven_bit_prefix(b: Seq<u8>, n: nat) -> nat
    decreases n,
{
    if n == 0 {
        0
    } else {
        seven_bit_prefix(b, (n - 1) as nat) * 128 + (b[n - 1] % 128) as nat
    }
}

/// The number of bytes the varint at the start of `b` takes, given that
/// none of the bytes before position `i` ends it: the first of the bytes
/// `i..8` with the high bit clear ends it, else it takes nine bytes.
/// Positions past the end of `b` count as continuation bytes.
pub open spec fn varint_len_from(b: Seq<u8>, i: nat) -> nat
    decreases 8 - i,
{
    if i >= 8 {
        9
    } else if i < b.len() && b[i as int] < 128 {
        i + 1
    } else {
        varint_len_from(b, i + 1)
    }
}

/// The number of bytes the varint at the start of `b` takes.
pub open spec fn varint_len(b: Seq<u8>) -> nat {
    varint_len_from(b, 0)
}

/// The value of the varint at the start of `b`: seven bits from each byte
/// but a ninth, which gives all eight.
pub open spec fn varint_value(b: Seq<u8>) -> nat {
    let n = varint_len(b);
    if n <= 8 {
        seven_bit_prefix(b, n)
    } else {
        seven_bit_prefix(b, 8) * 256 + b[8] as nat
    }
}

/// The varint at the start of `b` with the number of bytes it takes, or
/// `None` when `b` ends inside it.
pub open spec fn parse_varint(b: Seq<u8>) -> Option<(u64, nat)> {
    if varint_len(b) <= b.len() {
        Some((varint_value(b) as u64, varint_len(b)))
    } else {
        None
    }
}

/// The least number of bytes, counting from `n`, whose varint encoding
/// holds `v`: `n` bytes of seven bits each, or nine bytes.
pub open spec fn varint_len_for_from(v: u64, n: nat) -> nat
    decreases 9 - n,
{
    if n >= 9 {
        9
    } else if (v as nat) < pow128(n) {
        n
    } else {
        varint_len_for_from(v, n + 1)
    }
}

/// The length of the shortest varint encoding of `v`.
pub open spec fn varint_min_len(v: u64) -> nat {
    varint_len_for_from(v, 1)
}

/// Digit `k` (counting from the least significant) of `x` in base 128,
/// with the continuation bit set when `more` holds.
pub open spec fn digit_byte(x: nat, k: nat, more: bool) -> u8 {
    ((x / pow128(k)) % 128 + if more {
        128nat
    } else {
        0nat
    }) as u8
}

/// The shortest varint encoding of `v`.
pub open spec fn varint_encoding(v: u64) -> Seq<u8> {
    let n = varint_min_len(v);
    if n <= 8 {
        Seq::new(n, |j: int| digit_byte(v as nat, (n - 1 - j) as nat, j < n - 1))
    } else {
        Seq::new(8, |j: int| digit_byte(v as nat / 256, (7 - j) as nat, true)).push(
            (v % 256) as u8,
        )
    }
}

proof fn lemma_pow128_positive(n: nat)
    ensures
        pow128(n) > 0,
    decreases n,
{
    if n > 0 {
        lemma_pow128_positive((n - 1) as nat);
    }
}

proof fn lemma_pow128_values()
    ensures
        pow128(0) == 1,
        pow128(1) == 0x80,
        pow128(2) == 0x4000,
        pow128(3) == 0x20_0000,
        pow128(4) == 0x1000_0000,
        pow128(5) == 0x8_0000_0000,
        pow128(6) == 0x400_0000_0000,
        pow128(7) == 0x2_0000_0000_0000,
        pow128(8) == 0x100_0000_0000_0000,
{
    reveal_with_fuel(pow128, 9);
}

proof fn lemma_prefix_bound(b: Seq<u8>, n: nat)
    ensures
        seven_bit_prefix(b, n) < pow128(n),
    decreases n,
{
    if n > 0 {
        lemma_prefix_bound(b, (n - 1) as nat);
        let p = seven_bit_prefix(b, (n - 1) as nat);
        let q = pow128((n - 1) as nat);
        assert(p * 128 + 127 < q * 128) by (nonlinear_arith)
            requires
                p < q,
        ;
    }
}

/// The varint at the start of a sequence fits in 64 bits.
pub proof fn lemma_varint_value_fits(b: Seq<u8>)
    ensures
        varint_value(b) < 0x1_0000_0000_0000_0000,
{
    lemma_pow128_values();
    let n = varint_len(b);
    lemma_len_range(b, 0);
    lemma_prefix_bound(b, n);
    lemma_prefix_bound(b, 8);
    if n <= 8 {
        lemma_pow_monotone(n, 8);
    }
}

proof fn lemma_pow_monotone(a: nat, b: nat)
    requires
        a <= b,
    ensures
        pow128(a) <= pow128(b),
    decreases b - a,
{
    if a < b {
        lemma_pow_monotone(a, (b - 1) as nat);
        lemma_pow128_positive((b - 1) as nat);
    }
}

proof fn lemma_len_range(b: Seq<u8>, i: nat)
    requires
        i <= 8,
    ensures
        i < varint_len_from(b, i) <= 9,
        varint_len_from(b, i) <= 8 ==> b[varint_len_from(b, i) - 1] < 128,
        forall|j: int| i <= j < varint_len_from(b, i) - 1 ==> j >= b.len() || b[j] >= 128,
        varint_len_from(b, i) == 9 ==> forall|j: int| i <= j < 8 ==> j >= b.len() || b[j] >= 128,
    decreases 8 - i,
{
    if i < 8 && !(i < b.len() && b[i as int] < 128) {
        lemma_len_range(b, i + 1);
    }
}

proof fn lemma_len_of_stop(b: Seq<u8>, i: nat, n: nat)
    requires
        i < n <= 8,
        n <= b.len(),
        b[n - 1] < 128,
        forall|j: int| i <= j < n - 1 ==> b[j] >= 128,
    ensures
        varint_len_from(b, i) == n,
    decreases n - i,
{
    if i + 1 < n {
        lemma_len_of_stop(b, i + 1, n);
    }
}

proof fn lemma_len_of_nine(b: Seq<u8>, i: nat)
    requires
        i <= 8,
        8 <= b.len(),
        forall|j: int| i <= j < 8 ==> b[j] >= 128,
    ensures
        varint_len_from(b, i) == 9,
    decreases 8 - i,
{
    if i < 8 {
        lemma_len_of_nine(b, i + 1);
    }
}

/// When byte `j` of `b` holds digit `m - 1 - j` of `x`, the first `k` bytes
/// read as `x` divided by `128` to the power `m - k`.
proof fn lemma_prefix_digits(b: Seq<u8>, x: nat, m: nat, k: nat)
    requires
        k <= m,
        m <= b.len(),
        x < pow128(m),
        forall|j: int| 0 <= j < m ==> b[j] % 128 == (x / pow128((m - 1 - j) as nat)) % 128,
    ensures
        seven_bit_prefix(b, k) == x / pow128((m - k) as nat),
    decreases k,
{
    if k == 0 {
        lemma_basic_div(x as int, pow128(m) as int);
    } else {
        lemma_prefix_digits(b, x, m, (k - 1) as nat);
        let p = pow128((m - k) as nat);
        lemma_pow128_positive((m - k) as nat);
        let y = x / p;
        lemma_div_denominator(x as int, p as int, 128);
        assert(pow128((m - (k - 1)) as nat) == p * 128);
        lemma_fundamental_div_mod(y as int, 128);
    }
}

/// The shortest encoding of `v` is `varint_min_len(v)` bytes long.
proof fn lemma_min_len_range(v: u64, n: nat)
    requires
        1 <= n <= 9,
        n == 9 ==> (v as nat) >= pow128(8),
    ensures
        n <= varint_len_for_from(v, n) <= 9,
        varint_len_for_from(v, n) <= 8 ==> (v as nat) < pow128(varint_len_for_from(v, n)),
        varint_len_for_from(v, n) == 9 ==> (v as nat) >= pow128(8),
    decreases 9 - n,
{
    if n < 9 && !((v as nat) < pow128(n)) {
        lemma_min_len_range(v, n + 1);
    }
}

/// Encoding a 64-bit value as a varint and decoding the result, with any
/// bytes after it, gives the value back and consumes exactly the bytes of
/// its shortest encoding.
pub proof fn lemma_varint_round_trip(v: u64, rest: Seq<u8>)
    ensures
        varint_encoding(v).len() == varint_min_len(v),
        parse_varint(varint_encoding(v) + rest) == Some((v, varint_min_len(v))),
{
    let n = varint_min_len(v);
    let e = varint_encoding(v);
    let b = e + rest;
    lemma_min_len_range(v, 1);
    lemma_pow128_values();
    if n <= 8 {
        assert(e.len() == n);
        assert forall|j: int| 0 <= j < n implies b[j] % 128 == ((v as nat) / pow128(
            (n - 1 - j) as nat,
        )) % 128 && (j < n - 1 ==> b[j] >= 128) && (j == n - 1 ==> b[j] < 128) by {
            assert(b[j] == e[j]);
        }
        lemma_len_of_stop(b, 0, n);
        lemma_prefix_digits(b, v as nat, n, n);
        assert(varint_len(b) == n);
        assert(seven_bit_prefix(b, n) == (v as nat) / pow128(0));
        assert(varint_value(b) == v);
    } else {
        assert(e.len() == 9);
        let x = (v as nat) / 256;
        assert(x < pow128(8));
        assert forall|j: int| 0 <= j < 8 implies b[j] % 128 == (x / pow128((8 - 1 - j) as nat))
            % 128 && b[j] >= 128 by {
            assert(b[j] == e[j]);
        }
        lemma_len_of_nine(b, 0);
        lemma_prefix_digits(b, x, 8, 8);
        assert(b[8] == e[8]);
        lemma_fundamental_div_mod(v as int, 256);
        assert(varint_value(b) == v);
    }
}

/// A varint takes one to nine bytes, all of them within the sequence.
pub proof fn lemma_parse_varint_len(b: Seq<u8>)
    ensures
        parse_varint(b) matches Some((v, n)) ==> 1 <= n <= 9 && n <= b.len(),
{
    lemma_len_range(b, 0);
}

/// Reads the varint that starts at `pos` in `data`, returning its value and
/// the position just past it, or `None` when `data` ends inside it.
pub fn read_varint_at(data: &[u8], pos: usize) -> (r: Option<(u64, usize)>)
    requires
        pos <= data@.len(),
    ensures
        match parse_varint(data@.subrange(pos as int, data@.len() as int)) {
            Some((v, n)) => r == Some((v, (pos + n) as usize)),
            None => r is None,
        },
        r matches Some((v, next)) ==> pos < next <= data@.len() && parse_varint(
            data@.subrange(pos as int, data@.len() as int),
        ) == Some((v, (next - pos) as nat)),
{
    let ghost b = data@.subrange(pos as int, data@.len() as int);
    proof {
        lemma_parse_varint_len(b);
        lemma_len_range(b, 0);
        lemma_pow128_values();
        lemma_varint_value_fits(b);
    }
    let mut result: u64 = 0;
    let mut i: usize = 0;
    while i < 8
        invariant
            b == data@.subrange(pos as int, data@.len() as int),
            pos <= data@.len(),
            i <= 8,
            varint_len_from(b, 0) == varint_len_from(b, i as nat),
            result as nat == seven_bit_prefix(b, i as nat),
            forall|j: int| 0 <= j < i ==> b[j] >= 128,
            i <= b.len(),
        decreases 8 - i,
    {
        if i >= data.len() - pos {
            proof {
                lemma_len_range(b, i as nat);
            }
            return None;
        }
        let a = data[pos + i];
        proof {
            lemma_pow128_values();
            lemma_prefix_bound(b, i as nat);
            lemma_pow_monotone(i as nat, 7);
            assert(b[i as int] == a);
            assert(a & 0x7f == a % 128) by (bit_vector);
        }
        result = result * 128 + (a & 0x7f) as u64;
        i = i + 1;
        if a < 0x80 {
            return Some((result, pos + i));
        }
    }
    if 8 >= data.len() - pos {
        return None;
    }
    let a = data[pos + 8];
    proof {
        lemma_prefix_bound(b, 8);
        assert(b[8] == a);
    }
    result = result * 256 + a as u64;
    Some((result, pos + 9))
}

/// The shortest varint encoding of `v`.
pub fn encode_varint(v: u64) -> (r: Vec<u8>)
    ensures
        r@ == varint_encoding(v),
{
    proof {
        lemma_pow128_values();
        lemma_min_len_range(v, 1);
    }
    let mut n: usize = 1;
    let mut p: u64 = 128;
    while n < 9 && v >= p
        invariant
            1 <= n <= 9,
            n < 9 ==> p as nat == pow128(n as nat),
            varint_len_for_from(v, 1) == varint_len_for_from(v, n as nat),
        decreases 9 - n,
    {
        proof {
            lemma_pow128_values();
        }
        n = n + 1;
        if n < 9 {
            p = p * 128;
        }
    }
    let ghost m = varint_min_len(v);
    let (x, len): (u64, usize) = if n <= 8 {
        (v, n)
    } else {
        (v / 256, 8)
    };
    let mut digits: Vec<u8> = Vec::new();
    let mut y = x;
    let mut k: usize = 0;
    while k < len
        invariant
            k <= len <= 8,
            y as nat == (x as nat) / pow128(k as nat),
            digits@.len() == k,
            forall|j: int| 0 <= j < k ==> digits@[j] as nat == ((x as nat) / pow128(j as nat)) % 128,
        decreases len - k,
    {
        proof {
            lemma_pow128_positive(k as nat);
            lemma_div_denominator(x as int, pow128(k as nat) as int, 128);
            assert(pow128((k + 1) as nat) == pow128(k as nat) * 128);
        }
        digits.push((y % 128) as u8);
        y = y / 128;
        k = k + 1;
    }
    let mut r: Vec<u8> = Vec::new();
    let mut j: usize = 0;
    while j < len
        invariant
            j <= len <= 8,
            digits@.len() == len,
            forall|i: int| 0 <= i < len ==> digits@[i] as nat == ((x as nat) / pow128(i as nat)) % 128,
            r@.len() == j,
            forall|i: int|
                0 <= i < j ==> r@[i] == digit_byte(
                    x as nat,
                    (len - 1 - i) as nat,
                    i < len - 1 || n > 8,
                ),
        decreases len - j,
    {
        let d = digits[len - 1 - j];
        let b = if j < len - 1 || n > 8 {
            d + 128
        } else {
            d
        };
        r.push(b);
        j = j + 1;
    }
    if n > 8 {
        r.push((v % 256) as u8);
    }
    proof {
        lemma_min_len_range(v, 1);
        if n <= 8 {
            assert(r@ =~= varint_encoding(v));
        } else {
            assert(r@ =~= varint_encoding(v));
        }
    }
    r
}

/// A source of bytes from which varints can be read one after another.
pub trait ReadVarint {
    /// Reads the next varint from the source.
    fn read_varint(&mut self) -> Result<u64, DbError>;
}

/// A byte buffer with a read position.
pub struct ByteReader {
    pub bytes: Vec<u8>,
    pub pos: usize,
}

impl ByteReader {
    /// A reader positioned at the start of `bytes`.
    pub fn new(bytes: Vec<u8>) -> (r: ByteReader)
        ensures
            r.bytes == bytes,
            r.pos == 0,
    {
        ByteReader { bytes, pos: 0 }
    }
}

impl ReadVarint for ByteReader {
    /// Reads the varint at the current position and moves past it; fails
    /// with [`DbError::Io`] when the bytes end inside it.
    fn read_varint(&mut self) -> (r: Result<u64, DbError>)
        ensures
            final(self).bytes == old(self).bytes,
            old(self).pos > old(self).bytes@.len() ==> r == Err::<u64, DbError>(DbError::Io)
                && final(self).pos == old(self).pos,
            old(self).pos <= old(self).bytes@.len() ==> match parse_varint(
                old(self).bytes@.subrange(old(self).pos as int, old(self).bytes@.len() as int),
            ) {
                Some((v, n)) => r == Ok::<u64, DbError>(v) && final(self).pos == old(self).pos
                    + n,
                None => r == Err::<u64, DbError>(DbError::Io) && final(self).pos == old(
                    self,
                ).pos,
            },
    {
        if self.pos > self.bytes.len() {
            return Err(DbError::Io);
        }
        match read_varint_at(self.bytes.as_slice(), self.pos) {
            Some((v, next)) => {
                self.pos = next;
                Ok(v)
            },
            None => Err(DbError::Io),
        }
    }
}

} // verus!
