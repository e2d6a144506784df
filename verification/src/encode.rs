//! The canonical bencode encoder.
//!
//! `encoded` is the mathematical byte form of a value model: integers as
//! `i<decimal>e`, byte strings as `<decimal length>:<raw bytes>`, lists as
//! `l...e`, dictionaries as `d...e` with entries in stored order. Because a
//! well-formed dictionary stores its entries sorted ascending by raw key
//! bytes, the encoding of a well-formed tree is canonical: one byte form
//! per logical value, whatever order its entries were inserted in.

use vstd::prelude::*;
use vstd::slice::slice_to_vec;

use crate::value::{view_of, views_of_entries, views_of_items, Value, ValueModel};

verus! {

/// ASCII `i`: opens an integer.
pub const INT_TAG: u8 = 105;

/// ASCII `l`: opens a list.
pub const LIST_TAG: u8 = 108;

/// ASCII `d`: opens a dictionary.
pub const DICT_TAG: u8 = 100;

/// ASCII `e`: closes an integer, list or dictionary.
pub const END_TAG: u8 = 101;

/// ASCII `:`: separates a byte-string length from its contents.
pub const COLON: u8 = 58;

/// ASCII `-`: the negative sign of an integer.
pub const MINUS: u8 = 45;


/// The decimal digits of `n`, most significant first, with no leading zero
/// (a bare `0` for zero).
pub open spec fn dec_digits(n: nat) -> Seq<u8>
    decreases n,
{
    if n < 10 {
        seq![(48 + n) as u8]
    } else {
        dec_digits(n / 10).push((48 + n % 10) as u8)
    }
}

/// The decimal form of a signed integer: a leading `-` for a negative
/// value, then the digits of its magnitude.
pub open spec fn int_bytes(i: int) -> Seq<u8> {
    if i < 0 {
        seq![MINUS] + dec_digits((-i) as nat)
    } else {
        dec_digits(i as nat)
    }
}

/// The encoding of a byte string: decimal length, `:`, then the raw bytes.
pub open spec fn str_bytes(b: Seq<u8>) -> Seq<u8> {
    dec_digits(b.len()) + seq![COLON] + b
}

/// The canonical encoding of a value model.
pub open spec fn encoded(m: ValueModel) -> Seq<u8>
    decreases m,
{
    match m {
        ValueModel::Integer(i) => seq![INT_TAG] + int_bytes(i) + seq![END_TAG],
        ValueModel::ByteString(b) => str_bytes(b),
        ValueModel::List(items) => seq![LIST_TAG] + encoded_items(items) + seq![END_TAG],
        ValueModel::Dictionary(entries) => seq![DICT_TAG] + encoded_entries(entries) + seq![END_TAG],
    }
}

/// The concatenated encodings of a sequence of models, in order.
pub open spec fn encoded_items(q: Seq<ValueModel>) -> Seq<u8>
    decreases q,
{
    if q.len() == 0 {
        Seq::empty()
    } else {
        encoded_items(q.drop_last()) + encoded(q.last())
    }
}

/// The concatenated key and value encodings of a sequence of dictionary
/// entries, in stored order.
pub open spec fn encoded_entries(q: Seq<(Seq<u8>, ValueModel)>) -> Seq<u8>
    decreases q,
{
    if q.len() == 0 {
        Seq::empty()
    } else {
        encoded_entries(q.drop_last()) + str_bytes(q.last().0) + encoded(q.last().1)
    }
}

/// An accumulating byte sink for serialized output.
pub struct Serializer {
    buf: Vec<u8>,
}

impl View for Serializer {
    type V = Seq<u8>;

    closed spec fn view(&self) -> Seq<u8> {
        self.buf@
    }
}

impl Serializer {
    /// An empty sink.
    pub fn new() -> (s: Serializer)
        ensures
            s@ == Seq::<u8>::empty(),
    {
        Serializer { buf: Vec::new() }
    }

    /// Hands the accumulated bytes out.
    pub fn into_vec(self) -> (r: Vec<u8>)
        ensures
            r@ == self@,
    {
        self.buf
    }

    /// Appends raw bytes to the sink.
    pub fn push(&mut self, token: &[u8])
        ensures
            final(self)@ == old(self)@ + token@,
    {
        let mut tail = slice_to_vec(token);
        self.buf.append(&mut tail);
    }

    /// Appends one byte to the sink.
    pub fn push_byte(&mut self, b: u8)
        ensures
            final(self)@ == old(self)@.push(b),
    {
        self.buf.push(b);
    }
}

/// Appends the decimal digits of `n`, most significant first.
fn push_digits(s: &mut Serializer, n: u64)
    ensures
        final(s)@ == old(s)@ + dec_digits(n as nat),
    decreases n,
{
    if n >= 10 {
        push_digits(s, n / 10);
    }
    s.push_byte(48 + (n % 10) as u8);
    proof {
        if n < 10 {
            assert(old(s)@ + dec_digits(n as nat) =~= old(s)@.push((48 + n % 10) as u8));
        } else {
            assert(old(s)@ + dec_digits(n as nat) =~= (old(s)@ + dec_digits((n / 10) as nat)).push(
                (48 + n % 10) as u8,
            ));
        }
    }
}

/// Appends the encoding of one byte string: length, `:`, raw bytes.
fn push_str(s: &mut Serializer, b: &[u8])
    ensures
        final(s)@ == old(s)@ + str_bytes(b@),
{
    push_digits(s, b.len() as u64);
    s.push_byte(COLON);
    s.push(b);
    proof {
        assert(old(s)@ + str_bytes(b@) =~= ((old(s)@ + dec_digits(b@.len())).push(COLON)) + b@);
    }
}

/// Appends the canonical encoding of `v`.
fn push_value(s: &mut Serializer, v: &Value)
    ensures
        final(s)@ == old(s)@ + encoded(view_of(*v)),
    decreases *v,
{
    match v {
        Value::Integer(i) => {
            s.push_byte(INT_TAG);
            if *i < 0 {
                s.push_byte(MINUS);
                let mag: u64 = if *i == i64::MIN {
                    9223372036854775808u64
                } else {
                    (-*i) as u64
                };
                push_digits(s, mag);
            } else {
                push_digits(s, *i as u64);
            }
            s.push_byte(END_TAG);
            proof {
                assert(old(s)@ + encoded(view_of(*v)) =~= s@);
            }
        },
        Value::ByteString(b) => {
            push_str(s, b.as_slice());
        },
        Value::List(l) => {
            let ghost vm = views_of_items(l@);
            proof {
                crate::value::lemma_views_of_items(l@);
            }
            s.push_byte(LIST_TAG);
            let mut k: usize = 0;
            while k < l.len()
                invariant
                    *v == Value::List(*l),
                    0 <= k <= l@.len(),
                    vm == views_of_items(l@),
                    vm.len() == l@.len(),
                    forall|i: int| 0 <= i < l@.len() ==> #[trigger] vm[i] == view_of(l@[i]),
                    s@ == old(s)@ + seq![LIST_TAG] + encoded_items(vm.take(k as int)),
                decreases l@.len() - k,
            {
                proof {
                    assert(decreases_to!(*v => (*v)->List_0));
                    assert((*v)->List_0 == *l);
                    assert(decreases_to!(*l => l@));
                    assert(decreases_to!(l@ => l@[k as int]));
                }
                push_value(s, &l[k]);
                proof {
                    assert(vm.take(k + 1).drop_last() =~= vm.take(k as int));
                    assert(vm.take(k + 1).last() == vm[k as int]);
                    assert(s@ =~= old(s)@ + seq![LIST_TAG] + encoded_items(vm.take(k + 1)));
                }
                k = k + 1;
            }
            s.push_byte(END_TAG);
            proof {
                assert(vm.take(vm.len() as int) =~= vm);
                assert(s@ =~= old(s)@ + (seq![LIST_TAG] + encoded_items(vm) + seq![END_TAG]));
            }
        },
        Value::Dictionary(d) => {
            let ghost vm = views_of_entries(d@);
            proof {
                crate::value::lemma_views_of_entries(d@);
            }
            s.push_byte(DICT_TAG);
            let mut k: usize = 0;
            while k < d.len()
                invariant
                    *v == Value::Dictionary(*d),
                    0 <= k <= d@.len(),
                    vm == views_of_entries(d@),
                    vm.len() == d@.len(),
                    forall|i: int|
                        0 <= i < d@.len() ==> #[trigger] vm[i] == (d@[i].0@, view_of(d@[i].1)),
                    s@ == old(s)@ + seq![DICT_TAG] + encoded_entries(vm.take(k as int)),
                decreases d@.len() - k,
            {
                push_str(s, d[k].0.as_slice());
                proof {
                    assert(decreases_to!(*v => (*v)->Dictionary_0));
                    assert((*v)->Dictionary_0 == *d);
                    assert(decreases_to!(*d => d@));
                    assert(decreases_to!(d@ => d@[k as int]));
                    assert(decreases_to!(d@[k as int] => d@[k as int].1));
                }
                push_value(s, &d[k].1);
                proof {
                    assert(vm.take(k + 1).drop_last() =~= vm.take(k as int));
                    assert(vm.take(k + 1).last() == vm[k as int]);
                    assert(s@ =~= old(s)@ + seq![DICT_TAG] + encoded_entries(vm.take(k + 1)));
                }
                k = k + 1;
            }
            s.push_byte(END_TAG);
            proof {
                assert(vm.take(vm.len() as int) =~= vm);
                assert(s@ =~= old(s)@ + (seq![DICT_TAG] + encoded_entries(vm) + seq![END_TAG]));
            }
        },
    }
}

/// Serializes a value tree into its canonical byte form. Total: every
/// well-typed `Value` has an encoding.
pub fn encode(v: &Value) -> (r: Vec<u8>)
    ensures
        r@ == encoded(view_of(*v)),
{
    let mut s = Serializer::new();
    push_value(&mut s, v);
    proof {
        assert(s@ =~= encoded(view_of(*v)));
    }
    s.into_vec()
}

} // verus!
