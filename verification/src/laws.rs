//! The laws relating the encoder and the decoder.
//!
//! The central theorem is the round trip: decoding the canonical encoding
//! of any well-formed value gives that value back. Its corollaries are the
//! idempotence of canonicalization and, together with the dictionary
//! lemmas in `value`, the insertion-order independence of dictionaries.

use vstd::prelude::*;

use crate::decode::{is_digit, scan_digits, spec_dec, spec_dec_int, spec_dec_items, spec_dec_pairs,
    spec_dec_str, spec_decode, ParsedModel, MAX_DEPTH, NEG_MAG_MAX};
use crate::encode::{dec_digits, encoded, encoded_entries, encoded_items, int_bytes, str_bytes,
    COLON, DICT_TAG, END_TAG, INT_TAG, LIST_TAG, MINUS};
use crate::value::{depth, entries_sorted, lex_lt, model_get, model_insert, wf_entries, wf_items,
    wf_model, ParseError, ValueModel};

verus! {

/// Ten to the `k`.
spec fn pow10(k: nat) -> nat
    decreases k,
{
    if k == 0 {
        1
    } else {
        10 * pow10((k - 1) as nat)
    }
}

/// The value of the `k` decimal digits of `s` starting at `i`, most
/// significant first.
spec fn digits_val(s: Seq<u8>, i: int, k: nat) -> nat
    decreases k,
{
    if k == 0 {
        0
    } else {
        (((s[i] - 48) * pow10((k - 1) as nat)) + digits_val(s, i + 1, (k - 1) as nat)) as nat
    }
}

/// A sequence equal to a subrange of `s` pins the bytes of `s` there.
proof fn lemma_bytes_at(s: Seq<u8>, i: int, t: Seq<u8>)
    requires
        0 <= i,
        i + t.len() <= s.len(),
        s.subrange(i, i + t.len()) == t,
    ensures
        forall|k: int| 0 <= k < t.len() ==> s[i + k] == #[trigger] t[k],
{
    assert forall|k: int| 0 <= k < t.len() implies s[i + k] == #[trigger] t[k] by {
        assert(t[k] == s.subrange(i, i + t.len())[k]);
    }
}

/// The digits of a number are decimal digits, at least one of them, and
/// only zero prints with a leading `0`.
proof fn lemma_dec_digits_props(n: nat)
    ensures
        dec_digits(n).len() >= 1,
        forall|i: int| 0 <= i < dec_digits(n).len() ==> is_digit(#[trigger] dec_digits(n)[i]),
        (dec_digits(n)[0] == 48) <==> (n == 0),
    decreases n,
{
    if n >= 10 {
        lemma_dec_digits_props(n / 10);
        assert forall|i: int| 0 <= i < dec_digits(n).len() implies is_digit(
            #[trigger] dec_digits(n)[i],
        ) by {
            if i < dec_digits(n).len() - 1 {
                assert(dec_digits(n)[i] == dec_digits(n / 10)[i]);
            }
        }
        assert(dec_digits(n)[0] == dec_digits(n / 10)[0]);
    }
}

/// A scan over `k` digits followed by a non-digit (or the end of input)
/// accumulates exactly those digits.
proof fn lemma_scan_run(s: Seq<u8>, i: int, k: nat, a: nat)
    requires
        0 <= i,
        i + k <= s.len(),
        forall|t: int| 0 <= t < k ==> is_digit(#[trigger] s[i + t]),
        i + k == s.len() || !is_digit(s[i + k]),
    ensures
        scan_digits(s, i, a) == (a * pow10(k) + digits_val(s, i, k), i + k),
    decreases k,
{
    if k == 0 {
        assert(pow10(0) == 1);
        assert(digits_val(s, i, 0) == 0);
        assert(a * pow10(0) + digits_val(s, i, 0) == a) by (nonlinear_arith)
            requires
                pow10(0) == 1,
                digits_val(s, i, 0) == 0,
        ;
    } else {
        assert(is_digit(s[i + 0]));
        let d0 = (s[i] - 48) as nat;
        assert forall|t: int| 0 <= t < k - 1 implies is_digit(#[trigger] s[i + 1 + t]) by {
            assert(is_digit(s[i + (t + 1)]));
        }
        lemma_scan_run(s, i + 1, (k - 1) as nat, (a * 10 + d0) as nat);
        assert(pow10(k) == 10 * pow10((k - 1) as nat));
        assert((a * 10 + d0) * pow10((k - 1) as nat) == a * (10 * pow10((k - 1) as nat)) + d0
            * pow10((k - 1) as nat)) by (nonlinear_arith);
        assert((s[i] - 48) * pow10((k - 1) as nat) >= 0) by (nonlinear_arith)
            requires
                s[i] - 48 >= 0,
        ;
        assert(digits_val(s, i, k) == (s[i] - 48) * pow10((k - 1) as nat) + digits_val(
            s,
            i + 1,
            (k - 1) as nat,
        ));
        assert(scan_digits(s, i, a) == scan_digits(s, i + 1, (a * 10 + d0) as nat));
    }
}

/// Appending one more digit to a run multiplies its value by ten.
proof fn lemma_digits_val_snoc(s: Seq<u8>, i: int, k: nat)
    requires
        0 <= i,
        i + k + 1 <= s.len(),
        forall|t: int| 0 <= t < k + 1 ==> is_digit(#[trigger] s[i + t]),
    ensures
        digits_val(s, i, (k + 1) as nat) == digits_val(s, i, k) * 10 + (s[i + k] - 48),
    decreases k,
{
    assert(is_digit(s[i + 0]));
    let d0 = s[i] - 48;
    if k == 0 {
        assert(pow10(0) == 1);
        assert(digits_val(s, i + 1, 0) == 0);
        assert(digits_val(s, i, 0) == 0);
        assert(d0 * pow10(0) == d0) by (nonlinear_arith)
            requires
                pow10(0) == 1,
        ;
        assert(digits_val(s, i, 1) == (d0 * pow10(0) + digits_val(s, i + 1, 0)) as nat);
    } else {
        assert forall|t: int| 0 <= t < k implies is_digit(#[trigger] s[(i + 1) + t]) by {
            assert(is_digit(s[i + (t + 1)]));
        }
        lemma_digits_val_snoc(s, i + 1, (k - 1) as nat);
        assert(pow10(k) == 10 * pow10((k - 1) as nat));
        assert(d0 * pow10(k) >= 0 && d0 * pow10((k - 1) as nat) >= 0) by (nonlinear_arith)
            requires
                d0 >= 0,
        ;
        assert(d0 * pow10(k) == (d0 * pow10((k - 1) as nat)) * 10) by (nonlinear_arith)
            requires
                pow10(k) == 10 * pow10((k - 1) as nat),
        ;
        assert(digits_val(s, i, (k + 1) as nat) == d0 * pow10(k) + digits_val(s, i + 1, k));
        assert(digits_val(s, i, k) == d0 * pow10((k - 1) as nat) + digits_val(
            s,
            i + 1,
            (k - 1) as nat,
        ));
        assert((i + 1) + (k - 1) == i + k);
        assert(digits_val(s, i + 1, k) == digits_val(s, i + 1, (k - 1) as nat) * 10 + (s[i + k]
            - 48));
        assert(digits_val(s, i, (k + 1) as nat) == (d0 * pow10((k - 1) as nat)) * 10 + digits_val(
            s,
            i + 1,
            (k - 1) as nat,
        ) * 10 + (s[i + k] - 48));
    }
}

/// A digit run that spells `dec_digits(n)` has value `n`.
proof fn lemma_dd_val(s: Seq<u8>, i: int, n: nat)
    requires
        0 <= i,
        i + dec_digits(n).len() <= s.len(),
        s.subrange(i, i + dec_digits(n).len()) == dec_digits(n),
    ensures
        digits_val(s, i, dec_digits(n).len()) == n,
    decreases n,
{
    lemma_bytes_at(s, i, dec_digits(n));
    lemma_dec_digits_props(n);
    if n < 10 {
        assert(dec_digits(n) == seq![(48 + n) as u8]);
        assert(dec_digits(n).len() == 1);
        assert(s[i + 0] == dec_digits(n)[0]);
        assert(s[i] == (48 + n) as u8);
        assert(pow10(0) == 1);
        assert(digits_val(s, i + 1, 0) == 0);
        assert((s[i] - 48) * pow10(0) == s[i] - 48) by (nonlinear_arith)
            requires
                pow10(0) == 1,
        ;
        assert(digits_val(s, i, 1) == ((s[i] - 48) * pow10(0) + digits_val(s, i + 1, 0)) as nat);
    } else {
        let dd = dec_digits(n);
        let dp = dec_digits(n / 10);
        let lp = dp.len();
        assert(dd == dp.push((48 + n % 10) as u8));
        assert(s.subrange(i, i + lp as int) =~= dp) by {
            assert forall|t: int| 0 <= t < lp implies s.subrange(i, i + lp as int)[t] == dp[t] by {
                assert(s[i + t] == dd[t]);
            }
        }
        lemma_dd_val(s, i, n / 10);
        assert forall|t: int| 0 <= t < lp + 1 implies is_digit(#[trigger] s[i + t]) by {
            assert(s[i + t] == dd[t]);
        }
        lemma_digits_val_snoc(s, i, lp);
        assert(s[i + lp as int] == dd[lp as int]);
        assert(digits_val(s, i, dd.len()) == (n / 10) * 10 + n % 10);
    }
}

/// Every encoding is at least two bytes long.
proof fn lemma_encoded_len(m: ValueModel)
    ensures
        encoded(m).len() >= 2,
{
    match m {
        ValueModel::Integer(i) => {
            if i < 0 {
                lemma_dec_digits_props((-i) as nat);
            } else {
                lemma_dec_digits_props(i as nat);
            }
        },
        ValueModel::ByteString(b) => {
            lemma_dec_digits_props(b.len());
        },
        ValueModel::List(_) => {},
        ValueModel::Dictionary(_) => {},
    }
}

/// Inserting a key above every present key appends the entry.
proof fn lemma_model_insert_append(q: Seq<(Seq<u8>, ValueModel)>, k: Seq<u8>, m: ValueModel)
    requires
        forall|t: int| 0 <= t < q.len() ==> lex_lt(#[trigger] q[t].0, k),
    ensures
        model_insert(q, k, m) == q.push((k, m)),
{
    crate::value::lemma_insert_pos_char(q, k, q.len() as int);
    assert(model_insert(q, k, m) =~= q.push((k, m)));
}

/// Decoding at an encoded integer yields that integer, whatever nesting
/// budget is left.
proof fn lemma_dec_encoded_int(v: int, s: Seq<u8>, i: int, d: nat)
    requires
        i64::MIN as int <= v <= i64::MAX as int,
        0 <= i,
        i + encoded(ValueModel::Integer(v)).len() <= s.len(),
        s.subrange(i, i + encoded(ValueModel::Integer(v)).len()) == encoded(
            ValueModel::Integer(v),
        ),
    ensures
        spec_dec(s, i, d) == Ok::<(ParsedModel, int), ParseError>(
            (ParsedModel::Val(ValueModel::Integer(v)), i + encoded(ValueModel::Integer(v)).len()),
        ),
{
    let m = ValueModel::Integer(v);
    let enc = encoded(m);
    lemma_bytes_at(s, i, enc);
    let mag: nat = if v < 0 {
        (-v) as nat
    } else {
        v as nat
    };
    let dd = dec_digits(mag);
    lemma_dec_digits_props(mag);
    let l = dd.len() as int;
    assert(!is_digit(END_TAG));
    let p: int = if v < 0 {
        i + 2
    } else {
        i + 1
    };
    assert(enc[0] == INT_TAG);
    assert(s[i + 0] == enc[0]);
    if v < 0 {
        assert(int_bytes(v) == seq![MINUS] + dd);
        assert(enc.len() == 3 + l);
        assert(enc[1] == MINUS);
        assert(s[i + 1] == enc[1]);
    } else {
        assert(int_bytes(v) == dd);
        assert(enc.len() == 2 + l);
        assert(s[i + 1] == enc[1]);
    }
    assert forall|t: int| 0 <= t < l implies is_digit(#[trigger] s[p + t]) && s[p + t] == dd[t] by {
        if v < 0 {
            assert(s[i + (2 + t)] == enc[2 + t]);
            assert(enc[2 + t] == dd[t]);
        } else {
            assert(s[i + (1 + t)] == enc[1 + t]);
            assert(enc[1 + t] == dd[t]);
        }
    }
    assert(s[p + l] == END_TAG) by {
        if v < 0 {
            assert(s[i + (2 + l)] == enc[2 + l]);
        } else {
            assert(s[i + (1 + l)] == enc[1 + l]);
        }
    }
    assert(s.subrange(p, p + l) =~= dd) by {
        assert forall|t: int| 0 <= t < l implies s.subrange(p, p + l)[t] == dd[t] by {
            assert(s.subrange(p, p + l)[t] == s[p + t]);
        }
    }
    lemma_dd_val(s, p, mag);
    lemma_scan_run(s, p, dd.len(), 0);
    assert(0 * pow10(dd.len()) == 0) by (nonlinear_arith);
    assert(scan_digits(s, p, 0) == (mag, p + l));
    // the sign byte is not a digit, and a digit is not the sign byte
    assert(!is_digit(MINUS));
    if v < 0 {
        assert(s[i + 1] == MINUS);
        assert(s[p] == dd[0] && dd[0] != 48);
        assert(mag <= NEG_MAG_MAX as nat);
        assert(spec_dec_int(s, i + 1) == Ok::<(ParsedModel, int), ParseError>(
            (ParsedModel::Val(ValueModel::Integer(-(mag as int))), p + l + 1),
        ));
        assert(-(mag as int) == v);
    } else {
        assert(s[i + 1] == dd[0] && is_digit(dd[0]));
        assert(s[i + 1] != MINUS);
        if mag == 0 {
            assert(dd =~= seq![48u8]);
            assert(l == 1);
            assert(s[i + 1 + 1] == END_TAG);
        } else {
            assert(s[i + 1] != 48);
        }
        assert(mag <= i64::MAX as nat);
        assert(spec_dec_int(s, i + 1) == Ok::<(ParsedModel, int), ParseError>(
            (ParsedModel::Val(ValueModel::Integer(mag as int)), p + l + 1),
        ));
    }
    assert(spec_dec(s, i, d) == spec_dec_int(s, i + 1));
}

/// Decoding at an encoded byte string yields that byte string, whatever
/// nesting budget is left.
proof fn lemma_dec_encoded_str(b: Seq<u8>, s: Seq<u8>, i: int, d: nat)
    requires
        b.len() <= usize::MAX as nat,
        0 <= i,
        i + encoded(ValueModel::ByteString(b)).len() <= s.len(),
        s.subrange(i, i + encoded(ValueModel::ByteString(b)).len()) == encoded(
            ValueModel::ByteString(b),
        ),
    ensures
        spec_dec(s, i, d) == Ok::<(ParsedModel, int), ParseError>(
            (
                ParsedModel::Val(ValueModel::ByteString(b)),
                i + encoded(ValueModel::ByteString(b)).len(),
            ),
        ),
{
    let enc = encoded(ValueModel::ByteString(b));
    lemma_bytes_at(s, i, enc);
    let dd = dec_digits(b.len());
    lemma_dec_digits_props(b.len());
    let l = dd.len() as int;
    assert(enc == dd + seq![COLON] + b);
    assert(enc.len() == l + 1 + b.len());
    assert(!is_digit(COLON));
    assert forall|t: int| 0 <= t < l implies is_digit(#[trigger] s[i + t]) && s[i + t] == dd[t] by {
        assert(s[i + t] == enc[t]);
        assert(enc[t] == dd[t]);
    }
    assert(s[i + l] == COLON) by {
        assert(s[i + l] == enc[l]);
    }
    assert forall|t: int| 0 <= t < b.len() implies s[i + l + 1 + t] == #[trigger] b[t] by {
        assert(s[i + (l + 1 + t)] == enc[l + 1 + t]);
        assert(enc[l + 1 + t] == b[t]);
    }
    assert(s.subrange(i, i + l) =~= dd) by {
        assert forall|t: int| 0 <= t < l implies s.subrange(i, i + l)[t] == dd[t] by {
            assert(s.subrange(i, i + l)[t] == s[i + t]);
        }
    }
    lemma_dd_val(s, i, b.len());
    lemma_scan_run(s, i, dd.len(), 0);
    assert(0 * pow10(dd.len()) == 0) by (nonlinear_arith);
    assert(scan_digits(s, i, 0) == (b.len(), i + l));
    // dispatch: the first byte is a digit, which is no tag byte
    assert(s[i + 0] == dd[0] && is_digit(dd[0]));
    if b.len() == 0 {
        assert(dd =~= seq![48u8]);
        assert(l == 1);
        assert(s[i + 1] == COLON);
    } else {
        assert(s[i + 0] != 48);
    }
    assert(s.subrange(i + l + 1, i + l + 1 + b.len() as int) =~= b) by {
        assert forall|t: int|
            0 <= t < b.len() implies s.subrange(i + l + 1, i + l + 1 + b.len() as int)[t]
            == b[t] by {
            assert(s.subrange(i + l + 1, i + l + 1 + b.len() as int)[t] == s[i + l + 1 + t]);
        }
    }
    assert(spec_dec(s, i, d) == spec_dec_str(s, i));
    assert(spec_dec_str(s, i) == Ok::<(ParsedModel, int), ParseError>(
        (ParsedModel::Val(ValueModel::ByteString(b)), i + l + 1 + b.len()),
    ));
}

/// Decoding at the canonical encoding of any well-formed value whose
/// nesting fits the remaining budget yields exactly that value and
/// consumes exactly its encoding.
proof fn lemma_dec_encoded(m: ValueModel, s: Seq<u8>, i: int, d: nat)
    requires
        wf_model(m),
        depth(m) <= d,
        0 <= i,
        i + encoded(m).len() <= s.len(),
        s.subrange(i, i + encoded(m).len()) == encoded(m),
    ensures
        spec_dec(s, i, d) == Ok::<(ParsedModel, int), ParseError>(
            (ParsedModel::Val(m), i + encoded(m).len()),
        ),
    decreases m,
{
    match m {
        ValueModel::Integer(v) => {
            lemma_dec_encoded_int(v, s, i, d);
        },
        ValueModel::ByteString(b) => {
            lemma_dec_encoded_str(b, s, i, d);
        },
        ValueModel::List(items) => {
            let enc = encoded(m);
            lemma_bytes_at(s, i, enc);
            let body = encoded_items(items);
            assert(enc == seq![LIST_TAG] + body + seq![END_TAG]);
            assert(s[i + 0] == enc[0] && enc[0] == LIST_TAG);
            assert(s.subrange(i + 1, i + 1 + body.len() as int) =~= body) by {
                assert forall|t: int|
                    0 <= t < body.len() implies s.subrange(i + 1, i + 1 + body.len() as int)[t]
                    == body[t] by {
                    assert(s.subrange(i + 1, i + 1 + body.len() as int)[t] == s[i + (1 + t)]);
                    assert(enc[1 + t] == body[t]);
                }
            }
            assert(s[i + (1 + body.len() as int)] == enc[1 + body.len() as int]);
            assert(enc[1 + body.len() as int] == END_TAG);
            assert(depth(m) == 1 + crate::value::depth_items(items));
            crate::value::lemma_depth_items_index(items);
            lemma_dec_encoded_items(items, Seq::empty(), s, i + 1, (d - 1) as nat);
            assert(Seq::empty() + items =~= items);
            assert(!is_digit(LIST_TAG) && LIST_TAG != INT_TAG);
            assert(spec_dec(s, i, d) == Ok::<(ParsedModel, int), ParseError>(
                (ParsedModel::Val(ValueModel::List(items)), i + 1 + body.len() + 1),
            ));
        },
        ValueModel::Dictionary(entries) => {
            let enc = encoded(m);
            lemma_bytes_at(s, i, enc);
            let body = encoded_entries(entries);
            assert(enc == seq![DICT_TAG] + body + seq![END_TAG]);
            assert(s[i + 0] == enc[0] && enc[0] == DICT_TAG);
            assert(s.subrange(i + 1, i + 1 + body.len() as int) =~= body) by {
                assert forall|t: int|
                    0 <= t < body.len() implies s.subrange(i + 1, i + 1 + body.len() as int)[t]
                    == body[t] by {
                    assert(s.subrange(i + 1, i + 1 + body.len() as int)[t] == s[i + (1 + t)]);
                    assert(enc[1 + t] == body[t]);
                }
            }
            assert(s[i + (1 + body.len() as int)] == enc[1 + body.len() as int]);
            assert(enc[1 + body.len() as int] == END_TAG);
            assert(entries_sorted(Seq::empty() + entries)) by {
                assert(Seq::empty() + entries =~= entries);
            }
            assert(depth(m) == 1 + crate::value::depth_pairs(entries));
            crate::value::lemma_depth_pairs_index(entries);
            lemma_dec_encoded_pairs(entries, Seq::empty(), s, i + 1, (d - 1) as nat);
            assert(Seq::empty() + entries =~= entries);
            assert(!is_digit(DICT_TAG) && DICT_TAG != INT_TAG);
            assert(spec_dec(s, i, d) == Ok::<(ParsedModel, int), ParseError>(
                (ParsedModel::Val(ValueModel::Dictionary(entries)), i + 1 + body.len() + 1),
            ));
        },
    }
}

/// Decoding items at the concatenated encodings of `items` followed by a
/// terminator appends exactly `items` to the accumulator.
proof fn lemma_dec_encoded_items(
    items: Seq<ValueModel>,
    acc: Seq<ValueModel>,
    s: Seq<u8>,
    i: int,
    d: nat,
)
    requires
        wf_items(items),
        forall|t: int| 0 <= t < items.len() ==> depth(#[trigger] items[t]) <= d,
        0 <= i,
        i + encoded_items(items).len() + 1 <= s.len(),
        s.subrange(i, i + encoded_items(items).len()) == encoded_items(items),
        s[i + encoded_items(items).len()] == END_TAG,
    ensures
        spec_dec_items(s, i, acc, d) == Ok::<(Seq<ValueModel>, int), ParseError>(
            (acc + items, i + encoded_items(items).len() + 1),
        ),
    decreases items,
{
    crate::value::lemma_wf_items_index(items);
    if items.len() == 0 {
        assert(encoded_items(items) == Seq::<u8>::empty());
        assert(s[i + 0] == END_TAG);
        assert(!is_digit(END_TAG) && END_TAG != INT_TAG && END_TAG != LIST_TAG && END_TAG
            != DICT_TAG);
        assert(spec_dec(s, i, d) == Ok::<(ParsedModel, int), ParseError>(
            (ParsedModel::End, i + 1),
        ));
        assert(acc + items =~= acc);
    } else {
        let m0 = items[0];
        let e0 = encoded(m0);
        let rest = items.drop_first();
        let erest = encoded_items(rest);
        lemma_encoded_items_first(items);
        lemma_encoded_len(m0);
        lemma_bytes_at(s, i, encoded_items(items));
        assert(s.subrange(i, i + e0.len() as int) =~= e0) by {
            assert forall|t: int|
                0 <= t < e0.len() implies s.subrange(i, i + e0.len() as int)[t] == e0[t] by {
                assert(s.subrange(i, i + e0.len() as int)[t] == s[i + t]);
                assert(encoded_items(items)[t] == e0[t]);
            }
        }
        assert(depth(items[0]) <= d);
        lemma_dec_encoded(m0, s, i, d);
        let j = i + e0.len() as int;
        assert(s.subrange(j, j + erest.len() as int) =~= erest) by {
            assert forall|t: int|
                0 <= t < erest.len() implies s.subrange(j, j + erest.len() as int)[t]
                == erest[t] by {
                assert(s.subrange(j, j + erest.len() as int)[t] == s[j + t]);
                assert(s[i + (e0.len() + t)] == encoded_items(items)[e0.len() + t]);
                assert(encoded_items(items)[e0.len() + t] == erest[t]);
            }
        }
        assert(s[j + erest.len() as int] == END_TAG) by {
            assert(j + erest.len() == i + encoded_items(items).len());
        }
        assert(wf_items(rest)) by {
            crate::value::lemma_wf_items_index(rest);
            assert forall|t: int| 0 <= t < rest.len() implies wf_model(#[trigger] rest[t]) by {
                assert(rest[t] == items[t + 1]);
            }
        }
        assert forall|t: int| 0 <= t < rest.len() implies depth(#[trigger] rest[t]) <= d by {
            assert(rest[t] == items[t + 1]);
        }
        assert(decreases_to!(items => items[0]));
        lemma_dec_encoded_items(rest, acc.push(m0), s, j, d);
        assert(acc.push(m0) + rest =~= acc + items);
        assert(spec_dec_items(s, i, acc, d) == spec_dec_items(s, j, acc.push(m0), d));
    }
}

/// Decoding entries at the concatenated key/value encodings of `entries`
/// followed by a terminator appends exactly `entries` to the accumulator,
/// provided the whole run stays strictly ascending by key.
proof fn lemma_dec_encoded_pairs(
    entries: Seq<(Seq<u8>, ValueModel)>,
    acc: Seq<(Seq<u8>, ValueModel)>,
    s: Seq<u8>,
    i: int,
    d: nat,
)
    requires
        wf_entries(entries),
        forall|t: int| 0 <= t < entries.len() ==> depth((#[trigger] entries[t]).1) <= d,
        entries_sorted(acc + entries),
        0 <= i,
        i + encoded_entries(entries).len() + 1 <= s.len(),
        s.subrange(i, i + encoded_entries(entries).len()) == encoded_entries(entries),
        s[i + encoded_entries(entries).len()] == END_TAG,
    ensures
        spec_dec_pairs(s, i, acc, d) == Ok::<(Seq<(Seq<u8>, ValueModel)>, int), ParseError>(
            (acc + entries, i + encoded_entries(entries).len() + 1),
        ),
    decreases entries,
{
    crate::value::lemma_wf_entries_index(entries);
    if entries.len() == 0 {
        assert(encoded_entries(entries) == Seq::<u8>::empty());
        assert(s[i + 0] == END_TAG);
        assert(!is_digit(END_TAG) && END_TAG != INT_TAG && END_TAG != LIST_TAG && END_TAG
            != DICT_TAG);
        assert(spec_dec(s, i, d) == Ok::<(ParsedModel, int), ParseError>(
            (ParsedModel::End, i + 1),
        ));
        assert(acc + entries =~= acc);
    } else {
        let k0 = entries[0].0;
        let m0 = entries[0].1;
        let ek = str_bytes(k0);
        let e0 = encoded(m0);
        let rest = entries.drop_first();
        let erest = encoded_entries(rest);
        lemma_encoded_entries_first(entries);
        assert(entries.first() == entries[0]);
        assert(encoded_entries(entries) == ek + e0 + erest);
        assert(ek == encoded(ValueModel::ByteString(k0)));
        lemma_encoded_len(ValueModel::ByteString(k0));
        lemma_encoded_len(m0);
        lemma_bytes_at(s, i, encoded_entries(entries));
        assert(s.subrange(i, i + ek.len() as int) =~= ek) by {
            assert forall|t: int|
                0 <= t < ek.len() implies s.subrange(i, i + ek.len() as int)[t] == ek[t] by {
                assert(s.subrange(i, i + ek.len() as int)[t] == s[i + t]);
                assert(encoded_entries(entries)[t] == (ek + e0)[t]);
            }
        }
        lemma_dec_encoded_str(k0, s, i, d);
        let j = i + ek.len() as int;
        assert(s.subrange(j, j + e0.len() as int) =~= e0) by {
            assert forall|t: int|
                0 <= t < e0.len() implies s.subrange(j, j + e0.len() as int)[t] == e0[t] by {
                assert(s.subrange(j, j + e0.len() as int)[t] == s[j + t]);
                assert(s[i + (ek.len() + t)] == encoded_entries(entries)[ek.len() + t]);
                assert(encoded_entries(entries)[ek.len() + t] == (ek + e0)[ek.len() + t]);
                assert((ek + e0)[ek.len() + t] == e0[t]);
            }
        }
        assert(depth(entries[0].1) <= d);
        lemma_dec_encoded(m0, s, j, d);
        let j2 = j + e0.len() as int;
        assert(s.subrange(j2, j2 + erest.len() as int) =~= erest) by {
            assert forall|t: int|
                0 <= t < erest.len() implies s.subrange(j2, j2 + erest.len() as int)[t]
                == erest[t] by {
                assert(s.subrange(j2, j2 + erest.len() as int)[t] == s[j2 + t]);
                assert(s[i + (ek.len() + e0.len() + t)] == encoded_entries(entries)[ek.len()
                    + e0.len() + t]);
                assert(encoded_entries(entries)[ek.len() + e0.len() + t] == erest[t]);
            }
        }
        assert(s[j2 + erest.len() as int] == END_TAG) by {
            assert(j2 + erest.len() == i + encoded_entries(entries).len());
        }
        assert(wf_entries(rest)) by {
            crate::value::lemma_wf_entries_index(rest);
            assert forall|t: int|
                0 <= t < rest.len() implies (#[trigger] rest[t].0.len() <= usize::MAX as nat
                && wf_model(rest[t].1)) by {
                assert(rest[t] == entries[t + 1]);
            }
        }
        assert forall|t: int| 0 <= t < acc.len() implies lex_lt(#[trigger] acc[t].0, k0) by {
            assert((acc + entries)[t] == acc[t]);
            assert((acc + entries)[acc.len() as int] == entries[0]);
        }
        lemma_model_insert_append(acc, k0, m0);
        let acc2 = acc.push((k0, m0));
        assert(acc2 + rest =~= acc + entries);
        assert(entries_sorted(acc2 + rest));
        assert forall|t: int|
            0 <= t < rest.len() implies depth((#[trigger] rest[t]).1) <= d by {
            assert(rest[t] == entries[t + 1]);
        }
        assert(decreases_to!(entries => entries[0]));
        lemma_dec_encoded_pairs(rest, acc2, s, j2, d);
        assert(spec_dec_pairs(s, i, acc, d) == spec_dec_pairs(s, j2, model_insert(acc, k0, m0), d));
    }
}

/// Round trip: decoding the canonical encoding of any well-formed value
/// model that fits the decoder's nesting limit gives exactly that value
/// back.
pub proof fn lemma_round_trip(m: ValueModel)
    requires
        wf_model(m),
        depth(m) <= MAX_DEPTH as nat,
    ensures
        spec_decode(encoded(m)) == Ok::<Option<ValueModel>, ParseError>(Some(m)),
{
    let s = encoded(m);
    lemma_encoded_len(m);
    assert(s.subrange(0, s.len() as int) =~= s);
    lemma_dec_encoded(m, s, 0, MAX_DEPTH as nat);
}

/// Idempotent canonicalization: re-encoding what the decoder returns for a
/// canonical encoding reproduces that encoding byte for byte.
pub proof fn lemma_canonical_idempotent(m: ValueModel)
    requires
        wf_model(m),
        depth(m) <= MAX_DEPTH as nat,
    ensures
        spec_decode(encoded(m)) matches Ok(Some(m2)) && encoded(m2) == encoded(m),
{
    lemma_round_trip(m);
}

/// On a key-sorted entry sequence, lookup finds exactly the entries that
/// are present: any entry with the key answers the lookup, and the lookup
/// fails exactly when no entry has the key.
proof fn lemma_model_get_char(q: Seq<(Seq<u8>, ValueModel)>, k: Seq<u8>)
    requires
        entries_sorted(q),
    ensures
        forall|t: int| 0 <= t < q.len() && (#[trigger] q[t]).0 == k ==> model_get(q, k) == Some(
            q[t].1,
        ),
        (model_get(q, k) is None) <==> (forall|t: int| 0 <= t < q.len() ==> (#[trigger] q[t]).0
            != k),
    decreases q.len(),
{
    if q.len() > 0 {
        let qd = q.drop_first();
        assert forall|i: int, j: int| 0 <= i < j < qd.len() implies lex_lt(
            #[trigger] qd[i].0,
            #[trigger] qd[j].0,
        ) by {
            assert(qd[i] == q[i + 1] && qd[j] == q[j + 1]);
        }
        lemma_model_get_char(qd, k);
        if q[0].0 == k {
            assert forall|t: int|
                0 <= t < q.len() && (#[trigger] q[t]).0 == k implies model_get(q, k) == Some(
                q[t].1,
            ) by {
                if t > 0 {
                    assert(lex_lt(q[0].0, q[t].0));
                    crate::value::lemma_lex_trichotomy(q[0].0, q[t].0);
                }
            }
        } else {
            assert forall|t: int|
                0 <= t < q.len() && (#[trigger] q[t]).0 == k implies model_get(q, k) == Some(
                q[t].1,
            ) by {
                assert(qd[t - 1] == q[t]);
            }
            if model_get(q, k) is None {
                assert forall|t: int| 0 <= t < q.len() implies (#[trigger] q[t]).0 != k by {
                    if t > 0 {
                        assert(qd[t - 1] == q[t]);
                    }
                }
            }
            if forall|t: int| 0 <= t < q.len() ==> (#[trigger] q[t]).0 != k {
                assert forall|t: int| 0 <= t < qd.len() implies (#[trigger] qd[t]).0 != k by {
                    assert(qd[t] == q[t + 1]);
                }
            }
        }
    }
}

/// Insertion acts on lookup as a mapping update: the inserted key now
/// answers with the inserted value, every other key answers as before.
pub proof fn lemma_model_get_insert(
    q: Seq<(Seq<u8>, ValueModel)>,
    k: Seq<u8>,
    m: ValueModel,
    k2: Seq<u8>,
)
    requires
        entries_sorted(q),
    ensures
        model_get(model_insert(q, k, m), k2) == if k2 == k {
            Some(m)
        } else {
            model_get(q, k2)
        },
{
    let p = crate::value::insert_pos(q, k);
    crate::value::lemma_insert_pos_props(q, k);
    crate::value::lemma_model_insert_sorted(q, k, m);
    let r = model_insert(q, k, m);
    lemma_model_get_char(q, k2);
    lemma_model_get_char(r, k2);
    let replaced = p < q.len() && q[p].0 == k;
    if !replaced {
        q.insert_ensures(p, (k, m));
    }
    if k2 == k {
        assert(r[p] == (k, m));
        assert(model_get(r, k2) == Some(m));
    } else {
        match model_get(q, k2) {
            Some(_) => {
                assert(!(forall|t: int| 0 <= t < q.len() ==> (#[trigger] q[t]).0 != k2));
                let t = choose|t: int| 0 <= t < q.len() && (#[trigger] q[t]).0 == k2;
                assert(model_get(q, k2) == Some(q[t].1));
                if replaced {
                    assert(t != p);
                    assert(r[t] == q[t]);
                    assert(model_get(r, k2) == Some(r[t].1));
                } else {
                    if t < p {
                        assert(r[t] == q[t]);
                        assert(model_get(r, k2) == Some(r[t].1));
                    } else {
                        assert(r[t + 1] == q[t]);
                        assert(model_get(r, k2) == Some(r[t + 1].1));
                    }
                }
            },
            None => {
                assert forall|t: int| 0 <= t < r.len() implies (#[trigger] r[t]).0 != k2 by {
                    if replaced {
                        if t != p {
                            assert(r[t] == q[t]);
                        }
                    } else {
                        if t < p {
                            assert(r[t] == q[t]);
                        } else if t > p {
                            assert(r[t] == q[t - 1]);
                        }
                    }
                }
            },
        }
    }
}

/// Two key-sorted entry sequences that answer every lookup alike are the
/// same sequence: the sorted form is canonical for the mapping it holds.
pub proof fn lemma_sorted_same_get_equal(
    q1: Seq<(Seq<u8>, ValueModel)>,
    q2: Seq<(Seq<u8>, ValueModel)>,
)
    requires
        entries_sorted(q1),
        entries_sorted(q2),
        forall|k: Seq<u8>| #[trigger] model_get(q1, k) == model_get(q2, k),
    ensures
        q1 == q2,
    decreases q1.len() + q2.len(),
{
    lemma_model_get_char(q1, if q2.len() > 0 {
        q2[0].0
    } else {
        Seq::empty()
    });
    if q1.len() == 0 && q2.len() == 0 {
        assert(q1 =~= q2);
    } else if q1.len() == 0 {
        assert(model_get(q2, q2[0].0) == Some(q2[0].1));
        assert(model_get(q1, q2[0].0) is None);
    } else if q2.len() == 0 {
        assert(model_get(q1, q1[0].0) == Some(q1[0].1));
        assert(model_get(q2, q1[0].0) is None);
    } else {
        let a = q1[0].0;
        let b = q2[0].0;
        lemma_model_get_char(q1, b);
        lemma_model_get_char(q2, a);
        assert(model_get(q1, a) == Some(q1[0].1));
        assert(model_get(q2, b) == Some(q2[0].1));
        // each head key occurs in the other sequence; heads are minimal
        assert(!(forall|t: int| 0 <= t < q2.len() ==> (#[trigger] q2[t]).0 != a));
        let ta = choose|t: int| 0 <= t < q2.len() && (#[trigger] q2[t]).0 == a;
        assert(!(forall|t: int| 0 <= t < q1.len() ==> (#[trigger] q1[t]).0 != b));
        let tb = choose|t: int| 0 <= t < q1.len() && (#[trigger] q1[t]).0 == b;
        if a != b {
            assert(ta > 0 && tb > 0);
            assert(lex_lt(q2[0].0, q2[ta].0));
            assert(lex_lt(q1[0].0, q1[tb].0));
            crate::value::lemma_lex_trans(a, b, a);
            crate::value::lemma_lex_trichotomy(a, a);
        }
        assert(a == b);
        assert(q1[0].1 == q2[0].1) by {
            assert(model_get(q1, a) == model_get(q2, a));
            assert(model_get(q2, a) == Some(q2[0].1));
        }
        let d1 = q1.drop_first();
        let d2 = q2.drop_first();
        assert forall|i: int, j: int| 0 <= i < j < d1.len() implies lex_lt(
            #[trigger] d1[i].0,
            #[trigger] d1[j].0,
        ) by {
            assert(d1[i] == q1[i + 1] && d1[j] == q1[j + 1]);
        }
        assert forall|i: int, j: int| 0 <= i < j < d2.len() implies lex_lt(
            #[trigger] d2[i].0,
            #[trigger] d2[j].0,
        ) by {
            assert(d2[i] == q2[i + 1] && d2[j] == q2[j + 1]);
        }
        assert forall|k: Seq<u8>| #[trigger] model_get(d1, k) == model_get(d2, k) by {
            lemma_model_get_char(d1, k);
            lemma_model_get_char(d2, k);
            if k == a {
                assert forall|t: int| 0 <= t < d1.len() implies (#[trigger] d1[t]).0 != k by {
                    assert(d1[t] == q1[t + 1]);
                    assert(lex_lt(q1[0].0, q1[t + 1].0));
                    crate::value::lemma_lex_trichotomy(a, q1[t + 1].0);
                }
                assert forall|t: int| 0 <= t < d2.len() implies (#[trigger] d2[t]).0 != k by {
                    assert(d2[t] == q2[t + 1]);
                    assert(lex_lt(q2[0].0, q2[t + 1].0));
                    crate::value::lemma_lex_trichotomy(a, q2[t + 1].0);
                }
                assert(model_get(d1, k) is None);
                assert(model_get(d2, k) is None);
            } else {
                assert(model_get(d1, k) == model_get(q1, k));
                assert(model_get(d2, k) == model_get(q2, k));
            }
        }
        lemma_sorted_same_get_equal(d1, d2);
        assert(q1.len() == q2.len());
        assert forall|t: int| 0 <= t < q1.len() implies q1[t] == q2[t] by {
            if t > 0 {
                assert(d1[t - 1] == q1[t]);
                assert(d2[t - 1] == q2[t]);
            }
        }
        assert(q1 =~= q2);
    }
}

/// Canonical ordering: on a key-sorted dictionary, inserting two entries
/// with distinct keys gives the same entries in either order — a
/// dictionary's stored (and therefore serialized) form is independent of
/// the order its entries were inserted in.
pub proof fn lemma_insert_order_irrelevant(
    q: Seq<(Seq<u8>, ValueModel)>,
    k1: Seq<u8>,
    m1: ValueModel,
    k2: Seq<u8>,
    m2: ValueModel,
)
    requires
        entries_sorted(q),
        k1 != k2,
    ensures
        model_insert(model_insert(q, k1, m1), k2, m2) == model_insert(
            model_insert(q, k2, m2),
            k1,
            m1,
        ),
{
    let l1 = model_insert(q, k1, m1);
    let l = model_insert(l1, k2, m2);
    let r1 = model_insert(q, k2, m2);
    let r = model_insert(r1, k1, m1);
    crate::value::lemma_model_insert_sorted(q, k1, m1);
    crate::value::lemma_model_insert_sorted(l1, k2, m2);
    crate::value::lemma_model_insert_sorted(q, k2, m2);
    crate::value::lemma_model_insert_sorted(r1, k1, m1);
    assert forall|k: Seq<u8>| #[trigger] model_get(l, k) == model_get(r, k) by {
        lemma_model_get_insert(q, k1, m1, k);
        lemma_model_get_insert(l1, k2, m2, k);
        lemma_model_get_insert(q, k2, m2, k);
        lemma_model_get_insert(r1, k1, m1, k);
    }
    lemma_sorted_same_get_equal(l, r);
}

/// Item encodings concatenate from the front as well.
proof fn lemma_encoded_items_first(q: Seq<ValueModel>)
    requires
        q.len() > 0,
    ensures
        encoded_items(q) == encoded(q.first()) + encoded_items(q.drop_first()),
    decreases q.len(),
{
    if q.len() == 1 {
        assert(q.drop_last() =~= Seq::<ValueModel>::empty());
        assert(q.drop_first() =~= Seq::<ValueModel>::empty());
        assert(encoded_items(q) == encoded_items(q.drop_last()) + encoded(q.last()));
        assert(encoded(q.first()) + encoded_items(q.drop_first()) =~= encoded(q.last()));
    } else {
        lemma_encoded_items_first(q.drop_last());
        assert(q.drop_last().first() == q.first());
        assert(q.drop_last().drop_first() =~= q.drop_first().drop_last());
        assert(q.drop_first().len() > 0);
        assert(encoded_items(q.drop_first()) == encoded_items(q.drop_first().drop_last()) + encoded(
            q.drop_first().last(),
        ));
        assert(q.drop_first().last() == q.last());
        assert(encoded_items(q) =~= encoded(q.first()) + encoded_items(q.drop_first()));
    }
}

/// Entry encodings concatenate from the front as well.
proof fn lemma_encoded_entries_first(q: Seq<(Seq<u8>, ValueModel)>)
    requires
        q.len() > 0,
    ensures
        encoded_entries(q) == str_bytes(q.first().0) + encoded(q.first().1) + encoded_entries(
            q.drop_first(),
        ),
    decreases q.len(),
{
    if q.len() == 1 {
        assert(q.drop_last() =~= Seq::<(Seq<u8>, ValueModel)>::empty());
        assert(q.drop_first() =~= Seq::<(Seq<u8>, ValueModel)>::empty());
        assert(str_bytes(q.first().0) + encoded(q.first().1) + encoded_entries(q.drop_first())
            =~= str_bytes(q.last().0) + encoded(q.last().1));
    } else {
        lemma_encoded_entries_first(q.drop_last());
        assert(q.drop_last().first() == q.first());
        assert(q.drop_last().drop_first() =~= q.drop_first().drop_last());
        assert(q.drop_first().len() > 0);
        assert(encoded_entries(q.drop_first()) == encoded_entries(q.drop_first().drop_last())
            + str_bytes(q.drop_first().last().0) + encoded(q.drop_first().last().1));
        assert(q.drop_first().last() == q.last());
        assert(encoded_entries(q) =~= str_bytes(q.first().0) + encoded(q.first().1)
            + encoded_entries(q.drop_first()));
    }
}

} // verus!
