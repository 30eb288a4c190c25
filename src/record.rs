//! The record format: a header of serial types followed by the values.
use vstd::prelude::*;

use crate::error::DbError;
use crate::serial_value::{parse_value, SerialValue, ValueView};
use crate::varint::{lemma_parse_varint_len, parse_varint, read_varint_at};

verus! {

/// The values of a vector of [`SerialValue`]s.
pub open spec fn values_view(v: Seq<SerialValue>) -> Seq<ValueView> {
    v.map_values(|x: SerialValue| x@)
}

/// The serial types of a record header: the varints of `b` from `pos` up to
/// `end`, for `pos <= end`. A varint that runs past `b` fails with
/// [`DbError::Record`]; one that runs past `end` makes the header
/// inconsistent, [`DbError::Page`].
pub open spec fn parse_serial_types(b: Seq<u8>, pos: nat, end: nat) -> Result<Seq<u64>, DbError>
    decreases end - pos,
    via parse_serial_types_decreases
{
    if pos >= end {
        Ok(Seq::empty())
    } else if pos > b.len() {
        Err(DbError::Record)
    } else {
        match parse_varint(b.subrange(pos as int, b.len() as int)) {
            None => Err(DbError::Record),
            Some((t, n)) => if pos + n > end {
                Err(DbError::Page)
            } else {
                match parse_serial_types(b, pos + n, end) {
                    Ok(ts) => Ok(seq![t] + ts),
                    Err(e) => Err(e),
                }
            },
        }
    }
}

#[via_fn]
proof fn parse_serial_types_decreases(b: Seq<u8>, pos: nat, end: nat) {
    if pos <= b.len() {
        lemma_parse_varint_len(b.subrange(pos as int, b.len() as int));
    }
}

/// The values of serial types `ts`, one after another from `pos` in `b`.
pub open spec fn parse_values(b: Seq<u8>, pos: nat, ts: Seq<u64>) -> Result<Seq<ValueView>, DbError>
    decreases ts.len(),
{
    if ts.len() == 0 {
        Ok(Seq::empty())
    } else {
        match parse_value(ts[0], b.subrange(pos as int, b.len() as int)) {
            Err(e) => Err(e),
            Ok((v, w)) => match parse_values(b, pos + w, ts.drop_first()) {
                Ok(vs) => Ok(seq![v] + vs),
                Err(e) => Err(e),
            },
        }
    }
}

/// The record that starts at `pos` in `b`: a header-size varint that counts
/// itself, the serial types, then the values. A record that does not fit in
/// `b` fails with [`DbError::Record`]; a header size smaller than its own
/// varint, with [`DbError::Page`].
pub open spec fn parse_record(b: Seq<u8>, pos: nat) -> Result<Seq<ValueView>, DbError> {
    if pos > b.len() {
        Err(DbError::Record)
    } else {
        match parse_varint(b.subrange(pos as int, b.len() as int)) {
            None => Err(DbError::Record),
            Some((h, n)) => if pos + h > b.len() {
                Err(DbError::Record)
            } else if n > h {
                Err(DbError::Page)
            } else {
                match parse_serial_types(b, pos + n, (pos + h) as nat) {
                    Err(e) => Err(e),
                    Ok(ts) => parse_values(b, (pos + h) as nat, ts),
                }
            },
        }
    }
}

/// Reads the serial types of a record header from `pos` up to `end`.
fn read_serial_types(data: &[u8], pos: usize, end: usize) -> (r: Result<Vec<u64>, DbError>)
    requires
        pos <= end <= data@.len(),
    ensures
        match (r, parse_serial_types(data@, pos as nat, end as nat)) {
            (Ok(ts), Ok(m)) => ts@ == m,
            (Err(e), Err(f)) => e == f,
            _ => false,
        },
{
    let mut types: Vec<u64> = Vec::new();
    let mut p = pos;
    while p < end
        invariant
            pos <= p <= end,
            end <= data@.len(),
            p <= data@.len(),
            parse_serial_types(data@, pos as nat, end as nat) == match parse_serial_types(
                data@,
                p as nat,
                end as nat,
            ) {
                Ok(ts) => Ok(types@ + ts),
                Err(e) => Err::<Seq<u64>, DbError>(e),
            },
        decreases data@.len() - p,
    {
        match read_varint_at(data, p) {
            None => {
                return Err(DbError::Record);
            },
            Some((t, next)) => {
                if next > end {
                    return Err(DbError::Page);
                }
                proof {
                    let ghost old_types = types@;
                    let ghost sub = data@.subrange(p as int, data@.len() as int);
                    assert(parse_varint(sub) == Some((t, (next - p) as nat)));
                    assert(parse_serial_types(data@, p as nat, end as nat) == match parse_serial_types(
                        data@,
                        next as nat,
                        end as nat,
                    ) {
                        Ok(ts) => Ok(seq![t] + ts),
                        Err(e) => Err::<Seq<u64>, DbError>(e),
                    });
                    assert(old_types.push(t) == old_types + seq![t]);
                    match parse_serial_types(data@, next as nat, end as nat) {
                        Ok(ts) => {
                            assert(old_types + (seq![t] + ts) == old_types.push(t) + ts);
                        },
                        Err(_) => {},
                    }
                }
                types.push(t);
                p = next;
            },
        }
    }
    proof {
        assert(types@ + Seq::<u64>::empty() == types@);
    }
    Ok(types)
}

/// Reads the values of serial types `ts` one after another from `pos`.
fn read_values(data: &[u8], pos: usize, ts: &Vec<u64>) -> (r: Result<Vec<SerialValue>, DbError>)
    requires
        pos <= data@.len(),
    ensures
        match (r, parse_values(data@, pos as nat, ts@)) {
            (Ok(vs), Ok(m)) => values_view(vs@) == m,
            (Err(e), Err(f)) => e == f,
            _ => false,
        },
{
    let mut values: Vec<SerialValue> = Vec::new();
    let mut p = pos;
    let mut i: usize = 0;
    proof {
        assert(ts@.subrange(0, ts@.len() as int) == ts@);
    }
    while i < ts.len()
        invariant
            i <= ts@.len(),
            p <= data@.len(),
            parse_values(data@, pos as nat, ts@) == match parse_values(
                data@,
                p as nat,
                ts@.subrange(i as int, ts@.len() as int),
            ) {
                Ok(vs) => Ok(values_view(values@) + vs),
                Err(e) => Err::<Seq<ValueView>, DbError>(e),
            },
        decreases ts@.len() - i,
    {
        let ghost rest = ts@.subrange(i as int, ts@.len() as int);
        proof {
            assert(rest[0] == ts@[i as int]);
            assert(rest.drop_first() == ts@.subrange(i + 1, ts@.len() as int));
        }
        match SerialValue::read(ts[i], data, p) {
            Err(e) => {
                return Err(e);
            },
            Ok((v, next)) => {
                proof {
                    let ghost old_vals = values@;
                    assert(values_view(old_vals.push(v)) == values_view(old_vals) + seq![v@]);
                    match parse_values(data@, next as nat, rest.drop_first()) {
                        Ok(vs) => {
                            assert(values_view(old_vals) + (seq![v@] + vs) == values_view(
                                old_vals,
                            ) + seq![v@] + vs);
                        },
                        Err(_) => {},
                    }
                }
                values.push(v);
                p = next;
                i = i + 1;
            },
        }
    }
    proof {
        assert(values_view(values@) + Seq::<ValueView>::empty() == values_view(values@));
    }
    Ok(values)
}

/// Reads the record that starts at `pos` in `data`.
pub fn read_record(data: &[u8], pos: usize) -> (r: Result<Vec<SerialValue>, DbError>)
    ensures
        match (r, parse_record(data@, pos as nat)) {
            (Ok(vs), Ok(m)) => values_view(vs@) == m,
            (Err(e), Err(f)) => e == f,
            _ => false,
        },
{
    if pos > data.len() {
        return Err(DbError::Record);
    }
    match read_varint_at(data, pos) {
        None => Err(DbError::Record),
        Some((h, next)) => {
            if h > (data.len() - pos) as u64 {
                return Err(DbError::Record);
            }
            let end = pos + h as usize;
            if next > end {
                return Err(DbError::Page);
            }
            match read_serial_types(data, next, end) {
                Err(e) => Err(e),
                Ok(ts) => read_values(data, end, &ts),
            }
        },
    }
}

} // verus!
