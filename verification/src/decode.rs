//! The bencode decoder: single-pass recursive descent over a byte slice.
//!
//! `spec_dec` is a total mathematical decoder; every executable entry point
//! is proved to return exactly what it says. One sub-decode consumes exactly
//! one well-formed value or the terminator byte `e`; the list and dictionary
//! loops consume terminators, and the terminator never reaches a caller of
//! the public API.
//!
//! The grammar enforced is the canonical one: integers reject a leading
//! zero (other than a bare `0`), a bare `-`, a negative zero, and any
//! magnitude outside 64 bits; byte-string length prefixes reject leading
//! zeros and magnitudes beyond the machine's length type. Running out of
//! input mid-construct is `UnexpectedEOF`; a byte where the grammar forbids
//! it is `UnexpectedByte`. Trailing bytes after the first value are left
//! unread.
//!
//! As hardening against adversarial input, a byte-string length is never
//! trusted beyond the bytes actually present, and containers may nest at
//! most `MAX_DEPTH` levels deep: a deeper stream is refused with
//! `InvalidFormat`, which bounds the decoder's recursion.

use vstd::prelude::*;
use vstd::slice::{slice_subrange, slice_to_vec};

use crate::encode::{COLON, DICT_TAG, END_TAG, INT_TAG, LIST_TAG, MINUS};
use crate::value::{
    model_insert, view_of, views_of_entries, views_of_items, wf_entries, wf_items, wf_model,
    ParseError, Value, ValueModel,
};

verus! {

/// The hardening limit on container nesting: a list or dictionary may
/// stand at most this many levels deep.
pub const MAX_DEPTH: u64 = 1024;

/// ASCII `0` through `9`.
pub open spec fn is_digit(b: u8) -> bool {
    48 <= b <= 57
}

/// Reads a run of decimal digits starting at `i`, accumulating onto `acc`,
/// and stops at the first non-digit byte or at the end of the input.
/// Returns the accumulated magnitude and the index of the first unread byte.
pub open spec fn scan_digits(s: Seq<u8>, i: int, acc: nat) -> (nat, int)
    decreases s.len() - i,
{
    if 0 <= i < s.len() && is_digit(s[i]) {
        scan_digits(s, i + 1, (acc * 10 + (s[i] - 48)) as nat)
    } else {
        (acc, i)
    }
}

/// What one sub-decode yields: a proper value, or the terminator byte `e`
/// that closes the enclosing list or dictionary. The terminator is consumed
/// by the list and dictionary loops and never surfaces through the public
/// API.
pub enum ParsedModel {
    Val(ValueModel),
    End,
}

/// The largest magnitude of a negative 64-bit integer.
pub const NEG_MAG_MAX: u64 = 9223372036854775808;

/// Decodes the body of an integer, with `i` just after the opening `i`
/// byte: an optional `-`, at least one digit with no superfluous leading
/// zero, a magnitude that fits 64 bits, then `e`.
pub open spec fn spec_dec_int(s: Seq<u8>, i: int) -> Result<(ParsedModel, int), ParseError> {
    if i >= s.len() {
        Err(ParseError::UnexpectedEOF)
    } else {
        let neg = s[i] == MINUS;
        let p = if neg {
            i + 1
        } else {
            i
        };
        if p >= s.len() {
            Err(ParseError::UnexpectedEOF)
        } else if !is_digit(s[p]) {
            Err(ParseError::UnexpectedByte(s[p]))
        } else if s[p] == 48 && p + 1 < s.len() && is_digit(s[p + 1]) {
            Err(ParseError::InvalidLength)
        } else {
            let (mag, j) = scan_digits(s, p, 0);
            if neg && mag == 0 {
                Err(ParseError::InvalidLength)
            } else if neg && mag > NEG_MAG_MAX as nat {
                Err(ParseError::InvalidLength)
            } else if !neg && mag > i64::MAX as nat {
                Err(ParseError::InvalidLength)
            } else if j >= s.len() {
                Err(ParseError::UnexpectedEOF)
            } else if s[j] != END_TAG {
                Err(ParseError::UnexpectedByte(s[j]))
            } else {
                let v = if neg {
                    -(mag as int)
                } else {
                    mag as int
                };
                Ok((ParsedModel::Val(ValueModel::Integer(v)), j + 1))
            }
        }
    }
}

/// Decodes a byte string, with `i` at its first length digit: a decimal
/// length with no superfluous leading zero that fits the machine's length
/// type, `:`, then exactly that many raw bytes.
pub open spec fn spec_dec_str(s: Seq<u8>, i: int) -> Result<(ParsedModel, int), ParseError> {
    if s[i] == 48 && i + 1 < s.len() && is_digit(s[i + 1]) {
        Err(ParseError::InvalidLength)
    } else {
        let (len, j) = scan_digits(s, i, 0);
        if len > usize::MAX as nat {
            Err(ParseError::InvalidLength)
        } else if j >= s.len() {
            Err(ParseError::UnexpectedEOF)
        } else if s[j] != COLON {
            Err(ParseError::UnexpectedByte(s[j]))
        } else if j + 1 + len > s.len() {
            Err(ParseError::UnexpectedEOF)
        } else {
            Ok((ParsedModel::Val(ValueModel::ByteString(s.subrange(j + 1, j + 1 + len))), j + 1
                + len))
        }
    }
}

/// Decodes one value or terminator starting at `i`, dispatching on the
/// leading byte. `d` is the remaining nesting budget: opening a list or
/// dictionary with none left is refused, and their contents are decoded
/// with one level less.
pub open spec fn spec_dec(s: Seq<u8>, i: int, d: nat) -> Result<(ParsedModel, int), ParseError>
    decreases s.len() - i, 0int,
{
    if !(0 <= i < s.len()) {
        Err(ParseError::UnexpectedEOF)
    } else if s[i] == INT_TAG {
        spec_dec_int(s, i + 1)
    } else if is_digit(s[i]) {
        spec_dec_str(s, i)
    } else if s[i] == LIST_TAG {
        if d == 0 {
            Err(ParseError::InvalidFormat)
        } else {
            match spec_dec_items(s, i + 1, Seq::empty(), (d - 1) as nat) {
                Ok((items, j)) => Ok((ParsedModel::Val(ValueModel::List(items)), j)),
                Err(e) => Err(e),
            }
        }
    } else if s[i] == DICT_TAG {
        if d == 0 {
            Err(ParseError::InvalidFormat)
        } else {
            match spec_dec_pairs(s, i + 1, Seq::empty(), (d - 1) as nat) {
                Ok((entries, j)) => Ok((ParsedModel::Val(ValueModel::Dictionary(entries)), j)),
                Err(e) => Err(e),
            }
        }
    } else if s[i] == END_TAG {
        Ok((ParsedModel::End, i + 1))
    } else {
        Err(ParseError::UnexpectedByte(s[i]))
    }
}

/// Decodes list items from `i` until a terminator, appending to `acc`.
/// Returns the items and the index just past the terminator.
///
/// A sub-decode always consumes at least one byte; the guards on the
/// returned index only justify termination and are never reached.
pub open spec fn spec_dec_items(s: Seq<u8>, i: int, acc: Seq<ValueModel>, d: nat) -> Result<
    (Seq<ValueModel>, int),
    ParseError,
>
    decreases s.len() - i, 1int,
{
    match spec_dec(s, i, d) {
        Err(e) => Err(e),
        Ok((ParsedModel::End, j)) => Ok((acc, j)),
        Ok((ParsedModel::Val(m), j)) => if j <= i || j > s.len() {
            Err(ParseError::UnexpectedEOF)
        } else {
            spec_dec_items(s, j, acc.push(m), d)
        },
    }
}

/// Decodes dictionary entries from `i` until a terminator, inserting each
/// key/value pair into `acc` at its sorted position; a later duplicate key
/// replaces the earlier entry. A key that is not a byte string is a format
/// error, and a terminator where a value is expected is a stray `e`.
///
/// As with items, the guards on returned indices only justify termination.
pub open spec fn spec_dec_pairs(
    s: Seq<u8>,
    i: int,
    acc: Seq<(Seq<u8>, ValueModel)>,
    d: nat,
) -> Result<(Seq<(Seq<u8>, ValueModel)>, int), ParseError>
    decreases s.len() - i, 1int,
{
    match spec_dec(s, i, d) {
        Err(e) => Err(e),
        Ok((ParsedModel::End, j)) => Ok((acc, j)),
        Ok((ParsedModel::Val(k), j)) => match k {
            ValueModel::ByteString(kb) => if j <= i || j > s.len() {
                Err(ParseError::UnexpectedEOF)
            } else {
                match spec_dec(s, j, d) {
                    Err(e) => Err(e),
                    Ok((ParsedModel::End, _)) => Err(ParseError::UnexpectedByte(END_TAG)),
                    Ok((ParsedModel::Val(m), j2)) => if j2 <= j || j2 > s.len() {
                        Err(ParseError::UnexpectedEOF)
                    } else {
                        spec_dec_pairs(s, j2, model_insert(acc, kb, m), d)
                    },
                }
            },
            _ => Err(ParseError::InvalidFormat),
        },
    }
}

/// What a whole decode call yields: `Ok(None)` only on empty input, a
/// value for a stream that opens with one, an error otherwise. A stray
/// terminator at the top level is the forbidden byte `e`.
pub open spec fn spec_decode(s: Seq<u8>) -> Result<Option<ValueModel>, ParseError> {
    if s.len() == 0 {
        Ok(None)
    } else {
        match spec_dec(s, 0, MAX_DEPTH as nat) {
            Ok((ParsedModel::Val(m), _)) => Ok(Some(m)),
            Ok((ParsedModel::End, _)) => Err(ParseError::UnexpectedByte(END_TAG)),
            Err(e) => Err(e),
        }
    }
}

/// The accumulated magnitude never shrinks as the scan advances.
pub proof fn lemma_scan_lower_bound(s: Seq<u8>, i: int, acc: nat)
    ensures
        scan_digits(s, i, acc).0 >= acc,
    decreases s.len() - i,
{
    if 0 <= i < s.len() && is_digit(s[i]) {
        lemma_scan_lower_bound(s, i + 1, (acc * 10 + (s[i] - 48)) as nat);
    }
}

/// The scan stops at or before the end of the input, and never before its
/// starting point.
pub proof fn lemma_scan_range(s: Seq<u8>, i: int, acc: nat)
    requires
        0 <= i <= s.len(),
    ensures
        i <= scan_digits(s, i, acc).1 <= s.len(),
    decreases s.len() - i,
{
    if 0 <= i < s.len() && is_digit(s[i]) {
        lemma_scan_range(s, i + 1, (acc * 10 + (s[i] - 48)) as nat);
    }
}

/// The executable counterpart of `ParsedModel`.
enum Parsed {
    Val(Value),
    End,
}

/// The model of one sub-decode's executable result.
spec fn parsed_model(p: Parsed) -> ParsedModel {
    match p {
        Parsed::Val(v) => ParsedModel::Val(view_of(v)),
        Parsed::End => ParsedModel::End,
    }
}

/// Reads a run of decimal digits with a bounded accumulator, failing where
/// the magnitude leaves 64 bits (the scanned magnitude can then fit no
/// bounded numeric the grammar uses).
fn scan_u64(input: &[u8], start: usize) -> (r: Result<(u64, usize), ParseError>)
    requires
        start <= input@.len(),
    ensures
        match r {
            Ok((acc, j)) => {
                &&& start <= j <= input@.len()
                &&& scan_digits(input@, start as int, 0) == (acc as nat, j as int)
            },
            Err(e) => {
                &&& e == ParseError::InvalidLength
                &&& scan_digits(input@, start as int, 0).0 > u64::MAX as nat
            },
        },
{
    let mut j = start;
    let mut acc: u64 = 0;
    loop
        invariant
            start <= j <= input@.len(),
            scan_digits(input@, start as int, 0) == scan_digits(input@, j as int, acc as nat),
        decreases input@.len() - j,
    {
        if j == input.len() {
            return Ok((acc, j));
        }
        let b = input[j];
        if b < 48 || b > 57 {
            return Ok((acc, j));
        }
        let d = (b - 48) as u64;
        if acc > (u64::MAX - d) / 10 {
            proof {
                assert(acc as nat * 10 + d as nat > u64::MAX as nat) by (nonlinear_arith)
                    requires
                        acc as nat > ((u64::MAX - d) as nat) / 10,
                        d <= 9,
                ;
                lemma_scan_lower_bound(input@, j + 1, (acc as nat * 10 + d as nat) as nat);
            }
            return Err(ParseError::InvalidLength);
        }
        proof {
            assert(acc as nat * 10 + d as nat <= u64::MAX as nat) by (nonlinear_arith)
                requires
                    acc as nat <= ((u64::MAX - d) as nat) / 10,
                    d <= 9,
            ;
        }
        acc = acc * 10 + d;
        j = j + 1;
    }
}

/// Decodes the body of an integer, with `i` just after the opening `i`.
fn decode_int(input: &[u8], i: usize) -> (r: Result<(Parsed, usize), ParseError>)
    requires
        i <= input@.len(),
    ensures
        match r {
            Ok((p, j)) => {
                &&& i < j <= input@.len()
                &&& spec_dec_int(input@, i as int) == Ok::<(ParsedModel, int), ParseError>(
                    (parsed_model(p), j as int),
                )
                &&& (p matches Parsed::Val(v) ==> wf_model(view_of(v)) && crate::value::depth(
                    view_of(v),
                ) == 0)
            },
            Err(e) => spec_dec_int(input@, i as int) == Err::<(ParsedModel, int), ParseError>(e),
        },
{
    if i == input.len() {
        return Err(ParseError::UnexpectedEOF);
    }
    let neg = input[i] == MINUS;
    let p = if neg {
        i + 1
    } else {
        i
    };
    if p == input.len() {
        return Err(ParseError::UnexpectedEOF);
    }
    let b0 = input[p];
    if b0 < 48 || b0 > 57 {
        return Err(ParseError::UnexpectedByte(b0));
    }
    if b0 == 48 && p + 1 < input.len() {
        let b1 = input[p + 1];
        if 48 <= b1 && b1 <= 57 {
            return Err(ParseError::InvalidLength);
        }
    }
    match scan_u64(input, p) {
        Err(_) => Err(ParseError::InvalidLength),
        Ok((mag, j)) => {
            if neg && mag == 0 {
                return Err(ParseError::InvalidLength);
            }
            if neg && mag > NEG_MAG_MAX {
                return Err(ParseError::InvalidLength);
            }
            if !neg && mag > (i64::MAX as u64) {
                return Err(ParseError::InvalidLength);
            }
            if j == input.len() {
                return Err(ParseError::UnexpectedEOF);
            }
            let t = input[j];
            if t != END_TAG {
                return Err(ParseError::UnexpectedByte(t));
            }
            let v: i64 = if neg {
                if mag == NEG_MAG_MAX {
                    i64::MIN
                } else {
                    -(mag as i64)
                }
            } else {
                mag as i64
            };
            proof {
                lemma_scan_range(input@, p as int, 0);
            }
            Ok((Parsed::Val(Value::Integer(v)), j + 1))
        },
    }
}

/// Decodes a byte string, with `i` at its first length digit.
fn decode_str(input: &[u8], i: usize) -> (r: Result<(Parsed, usize), ParseError>)
    requires
        i < input@.len(),
        is_digit(input@[i as int]),
    ensures
        match r {
            Ok((p, j)) => {
                &&& i < j <= input@.len()
                &&& spec_dec_str(input@, i as int) == Ok::<(ParsedModel, int), ParseError>(
                    (parsed_model(p), j as int),
                )
                &&& (p matches Parsed::Val(v) ==> wf_model(view_of(v)) && crate::value::depth(
                    view_of(v),
                ) == 0)
            },
            Err(e) => spec_dec_str(input@, i as int) == Err::<(ParsedModel, int), ParseError>(e),
        },
{
    if input[i] == 48 && i + 1 < input.len() {
        let b1 = input[i + 1];
        if 48 <= b1 && b1 <= 57 {
            return Err(ParseError::InvalidLength);
        }
    }
    match scan_u64(input, i) {
        Err(_) => Err(ParseError::InvalidLength),
        Ok((len64, j)) => {
            proof {
                lemma_scan_range(input@, i as int, 0);
                assert(scan_digits(input@, i as int, 0) == scan_digits(
                    input@,
                    i + 1,
                    (input@[i as int] - 48) as nat,
                ));
                lemma_scan_range(input@, i + 1, (input@[i as int] - 48) as nat);
            }
            if len64 > (usize::MAX as u64) {
                return Err(ParseError::InvalidLength);
            }
            let len = len64 as usize;
            if j == input.len() {
                return Err(ParseError::UnexpectedEOF);
            }
            let t = input[j];
            if t != COLON {
                return Err(ParseError::UnexpectedByte(t));
            }
            if len > input.len() - (j + 1) {
                return Err(ParseError::UnexpectedEOF);
            }
            let sub = slice_subrange(input, j + 1, j + 1 + len);
            let bytes = slice_to_vec(sub);
            Ok((Parsed::Val(Value::ByteString(bytes)), j + 1 + len))
        },
    }
}

/// Decodes one value or terminator starting at `i`, with `d` levels of
/// container nesting still allowed.
fn decode_at(input: &[u8], i: usize, d: u64) -> (r: Result<(Parsed, usize), ParseError>)
    requires
        i <= input@.len(),
    ensures
        match r {
            Ok((p, j)) => {
                &&& i < j <= input@.len()
                &&& spec_dec(input@, i as int, d as nat) == Ok::<(ParsedModel, int), ParseError>(
                    (parsed_model(p), j as int),
                )
                &&& (p matches Parsed::Val(v) ==> wf_model(view_of(v)) && crate::value::depth(
                    view_of(v),
                ) <= d as nat)
            },
            Err(e) => spec_dec(input@, i as int, d as nat) == Err::<
                (ParsedModel, int),
                ParseError,
            >(e),
        },
    decreases input@.len() - i,
{
    if i == input.len() {
        return Err(ParseError::UnexpectedEOF);
    }
    let b = input[i];
    if b == INT_TAG {
        decode_int(input, i + 1)
    } else if 48 <= b && b <= 57 {
        decode_str(input, i)
    } else if b == LIST_TAG {
        if d == 0 {
            return Err(ParseError::InvalidFormat);
        }
        let mut items: Vec<Value> = Vec::new();
        let mut cur: usize = i + 1;
        loop
            invariant
                i < cur <= input@.len(),
                i < input@.len(),
                input@[i as int] == LIST_TAG,
                d >= 1,
                wf_items(views_of_items(items@)),
                crate::value::depth_items(views_of_items(items@)) <= (d - 1) as nat,
                spec_dec_items(input@, i + 1, Seq::empty(), (d - 1) as nat) == spec_dec_items(
                    input@,
                    cur as int,
                    views_of_items(items@),
                    (d - 1) as nat,
                ),
            decreases input@.len() - cur,
        {
            match decode_at(input, cur, d - 1) {
                Err(e) => {
                    return Err(e);
                },
                Ok((p, j)) => match p {
                    Parsed::End => {
                        return Ok((Parsed::Val(Value::List(items)), j));
                    },
                    Parsed::Val(v) => {
                        proof {
                            assert(items@.push(v).drop_last() =~= items@);
                            assert(views_of_items(items@.push(v)) == views_of_items(items@).push(
                                view_of(v),
                            ));
                            assert(views_of_items(items@).push(view_of(v)).drop_last()
                                =~= views_of_items(items@));
                            assert(wf_items(views_of_items(items@).push(view_of(v))));
                            assert(views_of_items(items@).push(view_of(v)).last() == view_of(v));
                            assert(crate::value::depth_items(
                                views_of_items(items@).push(view_of(v)),
                            ) <= (d - 1) as nat);
                        }
                        items.push(v);
                        cur = j;
                    },
                },
            }
        }
    } else if b == DICT_TAG {
        if d == 0 {
            return Err(ParseError::InvalidFormat);
        }
        let mut entries: Vec<(Vec<u8>, Value)> = Vec::new();
        let mut cur: usize = i + 1;
        loop
            invariant
                i < cur <= input@.len(),
                i < input@.len(),
                input@[i as int] == DICT_TAG,
                d >= 1,
                wf_entries(views_of_entries(entries@)),
                crate::value::entries_sorted(views_of_entries(entries@)),
                crate::value::depth_pairs(views_of_entries(entries@)) <= (d - 1) as nat,
                spec_dec_pairs(input@, i + 1, Seq::empty(), (d - 1) as nat) == spec_dec_pairs(
                    input@,
                    cur as int,
                    views_of_entries(entries@),
                    (d - 1) as nat,
                ),
            decreases input@.len() - cur,
        {
            match decode_at(input, cur, d - 1) {
                Err(e) => {
                    return Err(e);
                },
                Ok((p, j)) => match p {
                    Parsed::End => {
                        return Ok((Parsed::Val(Value::Dictionary(entries)), j));
                    },
                    Parsed::Val(key_value) => match key_value {
                        Value::ByteString(kb) => match decode_at(input, j, d - 1) {
                            Err(e) => {
                                return Err(e);
                            },
                            Ok((p2, j2)) => match p2 {
                                Parsed::End => {
                                    return Err(ParseError::UnexpectedByte(END_TAG));
                                },
                                Parsed::Val(val) => {
                                    proof {
                                        crate::value::lemma_model_insert_wf(
                                            views_of_entries(entries@),
                                            kb@,
                                            view_of(val),
                                        );
                                        crate::value::lemma_model_insert_depth(
                                            views_of_entries(entries@),
                                            kb@,
                                            view_of(val),
                                            (d - 1) as nat,
                                        );
                                    }
                                    crate::value::dict_insert(&mut entries, kb, val);
                                    cur = j2;
                                },
                            },
                        },
                        _ => {
                            return Err(ParseError::InvalidFormat);
                        },
                    },
                },
            }
        }
    } else if b == END_TAG {
        Ok((Parsed::End, i + 1))
    } else {
        Err(ParseError::UnexpectedByte(b))
    }
}

/// Decodes at most one bencode value from the front of `input`.
///
/// Returns `Ok(None)` only for empty input; otherwise either the first
/// value of the stream (trailing bytes are left unread) or the error the
/// grammar assigns. The returned tree is well-formed: integers fit 64
/// bits and every dictionary holds its entries strictly ascending by raw
/// key bytes.
pub fn decode(input: &[u8]) -> (r: Result<Option<Value>, ParseError>)
    ensures
        match r {
            Ok(Some(v)) => {
                &&& spec_decode(input@) == Ok::<Option<ValueModel>, ParseError>(Some(view_of(v)))
                &&& wf_model(view_of(v))
                &&& crate::value::depth(view_of(v)) <= MAX_DEPTH as nat
            },
            Ok(None) => input@.len() == 0 && spec_decode(input@) == Ok::<
                Option<ValueModel>,
                ParseError,
            >(None),
            Err(e) => spec_decode(input@) == Err::<Option<ValueModel>, ParseError>(e),
        },
{
    if input.len() == 0 {
        return Ok(None);
    }
    match decode_at(input, 0, MAX_DEPTH) {
        Err(e) => Err(e),
        Ok((Parsed::End, _)) => Err(ParseError::UnexpectedByte(END_TAG)),
        Ok((Parsed::Val(v), _)) => Ok(Some(v)),
    }
}

/// Decodes the root of a torrent file: exactly one value, which must be a
/// dictionary; any other top-level shape, or empty input, is
/// `InvalidFormat`, and a malformed stream keeps its decode error.
/// Trailing bytes after the root value are ignored.
pub fn parse_torrent_file(input: &[u8]) -> (r: Result<Vec<(Vec<u8>, Value)>, ParseError>)
    ensures
        match r {
            Ok(d) => {
                &&& spec_decode(input@) == Ok::<Option<ValueModel>, ParseError>(
                    Some(ValueModel::Dictionary(views_of_entries(d@))),
                )
                &&& wf_model(ValueModel::Dictionary(views_of_entries(d@)))
                &&& crate::value::depth(ValueModel::Dictionary(views_of_entries(d@)))
                    <= MAX_DEPTH as nat
            },
            Err(e) => match spec_decode(input@) {
                Ok(Some(m)) => !(m is Dictionary) && e == ParseError::InvalidFormat,
                Ok(None) => e == ParseError::InvalidFormat,
                Err(e0) => e == e0,
            },
        },
{
    match decode(input) {
        Err(e) => Err(e),
        Ok(None) => Err(ParseError::InvalidFormat),
        Ok(Some(v)) => match v {
            Value::Dictionary(d) => Ok(d),
            _ => Err(ParseError::InvalidFormat),
        },
    }
}

} // verus!
