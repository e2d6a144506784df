//! The bencode value tree and its mathematical model.
//!
//! `Value` is the executable representation: a closed tagged union of the
//! four bencode shapes. Dictionaries are kept as a vector of entries whose
//! keys are strictly ascending in raw byte order, which makes the canonical
//! serialization a plain left-to-right walk.
//!
//! `ValueModel` is the ghost mirror of `Value` over `int` and `Seq`; every
//! contract in this crate speaks of values through `view_of`.

use vstd::prelude::*;

verus! {

/// A decode error. All decode failures are fatal to the single decode call
/// that raised them; no partial tree is ever returned.
#[derive(Debug, Clone, Copy, PartialEq, Eq, Structural)]
pub enum ParseError {
    /// A byte appeared where the grammar forbids it.
    UnexpectedByte(u8),
    /// The input ended in the middle of a construct.
    UnexpectedEOF,
    /// A numeric token is malformed: a leading zero, a negative zero, or a
    /// magnitude that does not fit the bounded integer or length type.
    InvalidLength,
    /// Structurally valid bencode that does not satisfy the torrent-file
    /// shape requirements (root not a dictionary, dictionary key not a byte
    /// string, `info` entry missing or not a dictionary), or input nested
    /// deeper than the decoder's hardening limit.
    InvalidFormat,
}

/// Any bencode-serializable datum.
///
/// A dictionary is logically a mapping from byte-string keys to values; it
/// is stored as its entries sorted strictly ascending by raw key bytes (the
/// canonical serialization order), with no duplicate keys.
#[derive(Debug, PartialEq, Eq)]
pub enum Value {
    /// A signed integer, bounded to 64 bits; the decoder treats a wider
    /// magnitude as an error.
    Integer(i64),
    /// An arbitrary, not necessarily UTF-8, sequence of raw octets.
    ByteString(Vec<u8>),
    /// An ordered sequence of values; order is significant and preserved.
    List(Vec<Value>),
    /// A mapping from byte-string keys to values, keys unique and stored in
    /// ascending raw byte order.
    Dictionary(Vec<(Vec<u8>, Value)>),
}

/// The ghost mirror of `Value`: the same tree over `int` and `Seq`.
pub enum ValueModel {
    Integer(int),
    ByteString(Seq<u8>),
    List(Seq<ValueModel>),
    Dictionary(Seq<(Seq<u8>, ValueModel)>),
}

/// The model of a value: the same tree with every vector replaced by its
/// sequence view.
pub open spec fn view_of(v: Value) -> ValueModel
    decreases v,
{
    match v {
        Value::Integer(i) => ValueModel::Integer(i as int),
        Value::ByteString(b) => ValueModel::ByteString(b@),
        Value::List(l) => ValueModel::List(views_of_items(l@)),
        Value::Dictionary(d) => ValueModel::Dictionary(views_of_entries(d@)),
    }
}

/// The models of a sequence of values, element by element.
pub open spec fn views_of_items(q: Seq<Value>) -> Seq<ValueModel>
    decreases q,
{
    if q.len() == 0 {
        Seq::empty()
    } else {
        views_of_items(q.drop_last()).push(view_of(q.last()))
    }
}

/// The models of a sequence of dictionary entries, element by element.
pub open spec fn views_of_entries(q: Seq<(Vec<u8>, Value)>) -> Seq<(Seq<u8>, ValueModel)>
    decreases q,
{
    if q.len() == 0 {
        Seq::empty()
    } else {
        views_of_entries(q.drop_last()).push((q.last().0@, view_of(q.last().1)))
    }
}

/// Strict lexicographic order on raw bytes: `a` comes before `b`. This is
/// the canonical dictionary-key order; it compares octets, never characters
/// or locale collations.
pub open spec fn lex_lt(a: Seq<u8>, b: Seq<u8>) -> bool
    decreases a.len(),
{
    if b.len() == 0 {
        false
    } else if a.len() == 0 {
        true
    } else if a[0] < b[0] {
        true
    } else if a[0] > b[0] {
        false
    } else {
        lex_lt(a.drop_first(), b.drop_first())
    }
}

/// Dictionary entries are strictly ascending by key, which also makes the
/// keys pairwise distinct.
pub open spec fn entries_sorted(q: Seq<(Seq<u8>, ValueModel)>) -> bool {
    forall|i: int, j: int| 0 <= i < j < q.len() ==> lex_lt(q[i].0, q[j].0)
}

/// A well-formed model: integers fit 64 bits, byte strings and keys fit the
/// machine's length type, and dictionary entries are strictly ascending by
/// key. Every tree built by the decoder or viewed from a decoder-produced
/// `Value` satisfies this.
pub open spec fn wf_model(m: ValueModel) -> bool
    decreases m,
{
    match m {
        ValueModel::Integer(i) => i64::MIN as int <= i <= i64::MAX as int,
        ValueModel::ByteString(b) => b.len() <= usize::MAX as nat,
        ValueModel::List(items) => wf_items(items),
        ValueModel::Dictionary(entries) => wf_entries(entries) && entries_sorted(entries),
    }
}

/// Every element of a sequence of models is well-formed.
pub open spec fn wf_items(q: Seq<ValueModel>) -> bool
    decreases q,
{
    if q.len() == 0 {
        true
    } else {
        wf_items(q.drop_last()) && wf_model(q.last())
    }
}

/// Every entry of a dictionary has a key that fits the machine's length
/// type and a well-formed value.
pub open spec fn wf_entries(q: Seq<(Seq<u8>, ValueModel)>) -> bool
    decreases q,
{
    if q.len() == 0 {
        true
    } else {
        wf_entries(q.drop_last()) && q.last().0.len() <= usize::MAX as nat && wf_model(q.last().1)
    }
}

/// The container-nesting depth of a model: how many lists or dictionaries
/// stand around its deepest leaf. Integers and byte strings have depth
/// zero. The decoder refuses input nested deeper than its hardening limit.
pub open spec fn depth(m: ValueModel) -> nat
    decreases m,
{
    match m {
        ValueModel::Integer(_) => 0,
        ValueModel::ByteString(_) => 0,
        ValueModel::List(items) => 1 + depth_items(items),
        ValueModel::Dictionary(entries) => 1 + depth_pairs(entries),
    }
}

/// The largest depth among a sequence of models.
pub open spec fn depth_items(q: Seq<ValueModel>) -> nat
    decreases q,
{
    if q.len() == 0 {
        0
    } else if depth(q.last()) > depth_items(q.drop_last()) {
        depth(q.last())
    } else {
        depth_items(q.drop_last())
    }
}

/// The largest depth among the values of a sequence of entries.
pub open spec fn depth_pairs(q: Seq<(Seq<u8>, ValueModel)>) -> nat
    decreases q,
{
    if q.len() == 0 {
        0
    } else if depth(q.last().1) > depth_pairs(q.drop_last()) {
        depth(q.last().1)
    } else {
        depth_pairs(q.drop_last())
    }
}

/// Every element's depth is bounded by the sequence's depth.
pub proof fn lemma_depth_items_index(q: Seq<ValueModel>)
    ensures
        forall|t: int| 0 <= t < q.len() ==> depth(#[trigger] q[t]) <= depth_items(q),
    decreases q.len(),
{
    if q.len() > 0 {
        lemma_depth_items_index(q.drop_last());
        assert forall|t: int| 0 <= t < q.len() implies depth(#[trigger] q[t]) <= depth_items(
            q,
        ) by {
            if t < q.len() - 1 {
                assert(q.drop_last()[t] == q[t]);
            } else {
                assert(q.last() == q[t]);
            }
        }
    }
}

/// Every entry value's depth is bounded by the sequence's depth.
pub proof fn lemma_depth_pairs_index(q: Seq<(Seq<u8>, ValueModel)>)
    ensures
        forall|t: int| 0 <= t < q.len() ==> depth((#[trigger] q[t]).1) <= depth_pairs(q),
    decreases q.len(),
{
    if q.len() > 0 {
        lemma_depth_pairs_index(q.drop_last());
        assert forall|t: int| 0 <= t < q.len() implies depth((#[trigger] q[t]).1) <= depth_pairs(
            q,
        ) by {
            if t < q.len() - 1 {
                assert(q.drop_last()[t] == q[t]);
            } else {
                assert(q.last() == q[t]);
            }
        }
    }
}

/// A sequence whose elements all fit a depth bound fits it as a whole.
pub proof fn lemma_depth_items_bound(q: Seq<ValueModel>, b: nat)
    requires
        forall|t: int| 0 <= t < q.len() ==> depth(#[trigger] q[t]) <= b,
    ensures
        depth_items(q) <= b,
    decreases q.len(),
{
    if q.len() > 0 {
        assert forall|t: int| 0 <= t < q.len() - 1 implies depth(#[trigger] q.drop_last()[t])
            <= b by {
            assert(q.drop_last()[t] == q[t]);
        }
        lemma_depth_items_bound(q.drop_last(), b);
        assert(q.last() == q[q.len() - 1]);
    }
}

/// An entry sequence whose values all fit a depth bound fits it as a whole.
pub proof fn lemma_depth_pairs_bound(q: Seq<(Seq<u8>, ValueModel)>, b: nat)
    requires
        forall|t: int| 0 <= t < q.len() ==> depth((#[trigger] q[t]).1) <= b,
    ensures
        depth_pairs(q) <= b,
    decreases q.len(),
{
    if q.len() > 0 {
        assert forall|t: int|
            0 <= t < q.len() - 1 implies depth((#[trigger] q.drop_last()[t]).1) <= b by {
            assert(q.drop_last()[t] == q[t]);
        }
        lemma_depth_pairs_bound(q.drop_last(), b);
        assert(q.last() == q[q.len() - 1]);
    }
}

/// Insertion keeps an entry sequence within a depth bound the old entries
/// and the new value both fit.
pub proof fn lemma_model_insert_depth(
    q: Seq<(Seq<u8>, ValueModel)>,
    k: Seq<u8>,
    m: ValueModel,
    b: nat,
)
    requires
        depth_pairs(q) <= b,
        depth(m) <= b,
    ensures
        depth_pairs(model_insert(q, k, m)) <= b,
{
    let p = insert_pos(q, k);
    lemma_insert_pos_props(q, k);
    lemma_depth_pairs_index(q);
    let r = model_insert(q, k, m);
    if p < q.len() && q[p].0 == k {
        assert forall|t: int| 0 <= t < r.len() implies depth((#[trigger] r[t]).1) <= b by {
            if t != p {
                assert(r[t] == q[t]);
            }
        }
    } else {
        q.insert_ensures(p, (k, m));
        assert forall|t: int| 0 <= t < r.len() implies depth((#[trigger] r[t]).1) <= b by {
            if t < p {
                assert(r[t] == q[t]);
            } else if t > p {
                assert(r[t] == q[t - 1]);
            }
        }
    }
    lemma_depth_pairs_bound(r, b);
}

/// The number of entries whose keys come strictly before `k`: the position
/// at which an entry with key `k` stands or is inserted.
pub open spec fn insert_pos(q: Seq<(Seq<u8>, ValueModel)>, k: Seq<u8>) -> int
    decreases q.len(),
{
    if q.len() == 0 {
        0
    } else if lex_lt(q[0].0, k) {
        1 + insert_pos(q.drop_first(), k)
    } else {
        0
    }
}

/// Mapping insertion into a key-sorted entry sequence: an entry with an
/// equal key is replaced in place, any other key enters at its sorted
/// position. A later insertion of the same key therefore wins.
pub open spec fn model_insert(
    q: Seq<(Seq<u8>, ValueModel)>,
    k: Seq<u8>,
    m: ValueModel,
) -> Seq<(Seq<u8>, ValueModel)> {
    let p = insert_pos(q, k);
    if p < q.len() && q[p].0 == k {
        q.update(p, (k, m))
    } else {
        q.insert(p, (k, m))
    }
}

/// Mapping lookup: the value of the first entry whose key equals `k`.
pub open spec fn model_get(q: Seq<(Seq<u8>, ValueModel)>, k: Seq<u8>) -> Option<ValueModel>
    decreases q.len(),
{
    if q.len() == 0 {
        None
    } else if q[0].0 == k {
        Some(q[0].1)
    } else {
        model_get(q.drop_first(), k)
    }
}

/// The entry models are the entries' views, element by element.
pub proof fn lemma_views_of_entries(q: Seq<(Vec<u8>, Value)>)
    ensures
        views_of_entries(q).len() == q.len(),
        forall|i: int|
            0 <= i < q.len() ==> #[trigger] views_of_entries(q)[i] == (q[i].0@, view_of(q[i].1)),
    decreases q.len(),
{
    if q.len() > 0 {
        lemma_views_of_entries(q.drop_last());
    }
}

/// The item models are the items' views, element by element.
pub proof fn lemma_views_of_items(q: Seq<Value>)
    ensures
        views_of_items(q).len() == q.len(),
        forall|i: int| 0 <= i < q.len() ==> #[trigger] views_of_items(q)[i] == view_of(q[i]),
    decreases q.len(),
{
    if q.len() > 0 {
        lemma_views_of_items(q.drop_last());
    }
}

/// Exactly one of `lex_lt(a, b)`, `a == b`, `lex_lt(b, a)` holds.
pub proof fn lemma_lex_trichotomy(a: Seq<u8>, b: Seq<u8>)
    ensures
        lex_lt(a, b) ==> !lex_lt(b, a) && a != b,
        lex_lt(b, a) ==> !lex_lt(a, b) && a != b,
        !lex_lt(a, b) && !lex_lt(b, a) ==> a == b,
    decreases a.len(),
{
    if a.len() > 0 && b.len() > 0 && a[0] == b[0] {
        lemma_lex_trichotomy(a.drop_first(), b.drop_first());
        if a.drop_first() == b.drop_first() {
            assert forall|i: int| 0 <= i < a.len() implies a[i] == b[i] by {
                if i > 0 {
                    assert(a[i] == a.drop_first()[i - 1]);
                    assert(b[i] == b.drop_first()[i - 1]);
                }
            }
            assert(a =~= b);
        }
        if a == b {
            assert(a.drop_first() =~= b.drop_first());
        }
    }
}

/// The lexicographic order is transitive.
pub proof fn lemma_lex_trans(a: Seq<u8>, b: Seq<u8>, c: Seq<u8>)
    requires
        lex_lt(a, b),
        lex_lt(b, c),
    ensures
        lex_lt(a, c),
    decreases a.len(),
{
    if a.len() > 0 && b.len() > 0 && c.len() > 0 && a[0] == b[0] && b[0] == c[0] {
        lemma_lex_trans(a.drop_first(), b.drop_first(), c.drop_first());
    }
}

/// `insert_pos` is the unique boundary: every key before it comes before
/// `k`, and the key at it (if any) does not.
pub proof fn lemma_insert_pos_char(q: Seq<(Seq<u8>, ValueModel)>, k: Seq<u8>, p: int)
    requires
        0 <= p <= q.len(),
        forall|i: int| 0 <= i < p ==> lex_lt(#[trigger] q[i].0, k),
        p < q.len() ==> !lex_lt(q[p].0, k),
    ensures
        insert_pos(q, k) == p,
    decreases q.len(),
{
    if q.len() > 0 {
        if p == 0 {
        } else {
            assert(lex_lt(q[0].0, k));
            let qd = q.drop_first();
            assert forall|i: int| 0 <= i < p - 1 implies lex_lt(#[trigger] qd[i].0, k) by {
                assert(qd[i] == q[i + 1]);
            }
            lemma_insert_pos_char(qd, k, p - 1);
        }
    }
}

/// Every key before `insert_pos` comes strictly before `k`, and the key at
/// it, if any, does not.
pub proof fn lemma_insert_pos_props(q: Seq<(Seq<u8>, ValueModel)>, k: Seq<u8>)
    ensures
        0 <= insert_pos(q, k) <= q.len(),
        forall|i: int| 0 <= i < insert_pos(q, k) ==> lex_lt(#[trigger] q[i].0, k),
        insert_pos(q, k) < q.len() ==> !lex_lt(q[insert_pos(q, k)].0, k),
    decreases q.len(),
{
    if q.len() > 0 && lex_lt(q[0].0, k) {
        let qd = q.drop_first();
        lemma_insert_pos_props(qd, k);
        assert forall|i: int| 0 <= i < insert_pos(q, k) implies lex_lt(#[trigger] q[i].0, k) by {
            if i > 0 {
                assert(qd[i - 1] == q[i]);
            }
        }
        if insert_pos(q, k) < q.len() {
            assert(q[insert_pos(q, k)] == qd[insert_pos(qd, k)]);
        }
    }
}

/// Entry well-formedness is an element-wise condition.
pub proof fn lemma_wf_entries_index(q: Seq<(Seq<u8>, ValueModel)>)
    ensures
        wf_entries(q) <==> (forall|i: int|
            0 <= i < q.len() ==> (#[trigger] q[i].0.len() <= usize::MAX as nat && wf_model(
                q[i].1,
            ))),
    decreases q.len(),
{
    if q.len() > 0 {
        lemma_wf_entries_index(q.drop_last());
        assert forall|i: int| 0 <= i < q.len() - 1 implies q.drop_last()[i] == q[i] by {}
        if forall|i: int|
            0 <= i < q.len() ==> (#[trigger] q[i].0.len() <= usize::MAX as nat && wf_model(
                q[i].1,
            )) {
            assert(q.last() == q[q.len() - 1]);
        }
    }
}

/// Item well-formedness is an element-wise condition.
pub proof fn lemma_wf_items_index(q: Seq<ValueModel>)
    ensures
        wf_items(q) <==> (forall|i: int| 0 <= i < q.len() ==> wf_model(#[trigger] q[i])),
    decreases q.len(),
{
    if q.len() > 0 {
        lemma_wf_items_index(q.drop_last());
        assert forall|i: int| 0 <= i < q.len() - 1 implies q.drop_last()[i] == q[i] by {}
        if forall|i: int| 0 <= i < q.len() ==> wf_model(#[trigger] q[i]) {
            assert(q.last() == q[q.len() - 1]);
        }
    }
}

/// Inserting into a key-sorted entry sequence keeps it key-sorted.
pub proof fn lemma_model_insert_sorted(q: Seq<(Seq<u8>, ValueModel)>, k: Seq<u8>, m: ValueModel)
    requires
        entries_sorted(q),
    ensures
        entries_sorted(model_insert(q, k, m)),
        model_insert(q, k, m).len() <= q.len() + 1,
{
    let p = insert_pos(q, k);
    lemma_insert_pos_props(q, k);
    let r = model_insert(q, k, m);
    if p < q.len() && q[p].0 == k {
        assert forall|i: int, j: int| 0 <= i < j < r.len() implies lex_lt(r[i].0, r[j].0) by {
            assert(q[i].0 == r[i].0 && q[j].0 == r[j].0);
        }
    } else {
        q.insert_ensures(p, (k, m));
        if p < q.len() {
            lemma_lex_trichotomy(q[p].0, k);
        }
        assert forall|i: int, j: int| 0 <= i < j < r.len() implies lex_lt(r[i].0, r[j].0) by {
            if i < p && j < p {
            } else if i < p && j == p {
            } else if i < p && j > p {
                assert(r[j] == q[j - 1]);
            } else if i == p && j > p {
                assert(r[j] == q[j - 1]);
                if j - 1 > p {
                    lemma_lex_trans(k, q[p].0, q[j - 1].0);
                }
            } else {
                assert(r[i] == q[i - 1] && r[j] == q[j - 1]);
            }
        }
    }
}

/// Inserting a well-formed entry into a well-formed, key-sorted entry
/// sequence keeps it well-formed and key-sorted.
pub proof fn lemma_model_insert_wf(q: Seq<(Seq<u8>, ValueModel)>, k: Seq<u8>, m: ValueModel)
    requires
        wf_entries(q),
        entries_sorted(q),
        k.len() <= usize::MAX as nat,
        wf_model(m),
    ensures
        wf_entries(model_insert(q, k, m)),
        entries_sorted(model_insert(q, k, m)),
        model_insert(q, k, m).len() <= q.len() + 1,
{
    lemma_model_insert_sorted(q, k, m);
    let p = insert_pos(q, k);
    lemma_insert_pos_props(q, k);
    lemma_wf_entries_index(q);
    let r = model_insert(q, k, m);
    if p < q.len() && q[p].0 == k {
        lemma_wf_entries_index(r);
    } else {
        q.insert_ensures(p, (k, m));
        lemma_wf_entries_index(r);
        assert forall|i: int| 0 <= i < r.len() implies (#[trigger] r[i].0.len()
            <= usize::MAX as nat && wf_model(r[i].1)) by {
            if i < p {
                assert(r[i] == q[i]);
            } else if i > p {
                assert(r[i] == q[i - 1]);
            }
        }
    }
}

/// Whether `a@` comes strictly before `b@` in raw byte order.
pub fn lex_less(a: &[u8], b: &[u8]) -> (r: bool)
    ensures
        r == lex_lt(a@, b@),
{
    proof {
        assert(a@.skip(0) =~= a@);
        assert(b@.skip(0) =~= b@);
    }
    let mut i: usize = 0;
    loop
        invariant
            0 <= i <= a@.len(),
            i <= b@.len(),
            lex_lt(a@, b@) == lex_lt(a@.skip(i as int), b@.skip(i as int)),
        decreases a@.len() - i,
    {
        if i == b.len() {
            proof {
                assert(b@.skip(i as int).len() == 0);
            }
            return false;
        }
        if i == a.len() {
            proof {
                assert(a@.skip(i as int).len() == 0);
                assert(b@.skip(i as int).len() > 0);
            }
            return true;
        }
        let x = a[i];
        let y = b[i];
        proof {
            assert(a@.skip(i as int)[0] == a@[i as int]);
            assert(b@.skip(i as int)[0] == b@[i as int]);
        }
        if x < y {
            return true;
        }
        if x > y {
            return false;
        }
        proof {
            assert(a@.skip(i as int).drop_first() =~= a@.skip(i + 1));
            assert(b@.skip(i as int).drop_first() =~= b@.skip(i + 1));
        }
        i = i + 1;
    }
}

/// Whether `a@` and `b@` hold the same bytes.
pub fn bytes_eq(a: &[u8], b: &[u8]) -> (r: bool)
    ensures
        r == (a@ == b@),
{
    if a.len() != b.len() {
        return false;
    }
    let mut i: usize = 0;
    while i < a.len()
        invariant
            0 <= i <= a@.len(),
            a@.len() == b@.len(),
            forall|j: int| 0 <= j < i ==> a@[j] == b@[j],
        decreases a@.len() - i,
    {
        if a[i] != b[i] {
            return false;
        }
        i = i + 1;
    }
    proof {
        assert(a@ =~= b@);
    }
    true
}

/// The canonical position of `key` in a key-sorted entry vector: the index
/// of the first entry whose key does not come before `key`.
fn lower_bound(entries: &Vec<(Vec<u8>, Value)>, key: &[u8]) -> (p: usize)
    ensures
        0 <= p <= entries@.len(),
        forall|i: int|
            0 <= i < p ==> lex_lt(#[trigger] views_of_entries(entries@)[i].0, key@),
        p < entries@.len() ==> !lex_lt(views_of_entries(entries@)[p as int].0, key@),
{
    let ghost q = views_of_entries(entries@);
    proof {
        lemma_views_of_entries(entries@);
    }
    let mut p: usize = 0;
    loop
        invariant
            0 <= p <= entries@.len(),
            q == views_of_entries(entries@),
            q.len() == entries@.len(),
            forall|i: int|
                0 <= i < q.len() ==> #[trigger] q[i] == (entries@[i].0@, view_of(entries@[i].1)),
            forall|i: int| 0 <= i < p ==> lex_lt(#[trigger] q[i].0, key@),
        decreases entries@.len() - p,
    {
        if p == entries.len() {
            return p;
        }
        if !lex_less(entries[p].0.as_slice(), key) {
            return p;
        }
        p = p + 1;
    }
}

/// Inserts `(key, val)` into a key-sorted entry vector at its canonical
/// position, replacing an entry with an equal key.
pub fn dict_insert(entries: &mut Vec<(Vec<u8>, Value)>, key: Vec<u8>, val: Value)
    ensures
        views_of_entries(final(entries)@) == model_insert(
            views_of_entries(old(entries)@),
            key@,
            view_of(val),
        ),
{
    let ghost q = views_of_entries(entries@);
    proof {
        lemma_views_of_entries(entries@);
    }
    let p = lower_bound(entries, key.as_slice());
    let at_end = p == entries.len();
    proof {
        lemma_insert_pos_char(q, key@, p as int);
    }
    if !at_end && bytes_eq(entries[p].0.as_slice(), key.as_slice()) {
        proof {
            assert(q[p as int].0 == key@);
        }
        entries[p] = (key, val);
        proof {
            lemma_views_of_entries(entries@);
            assert(views_of_entries(entries@) =~= q.update(p as int, (key@, view_of(val))));
        }
    } else {
        proof {
            if !at_end {
                lemma_lex_trichotomy(q[p as int].0, key@);
            }
            assert(!(insert_pos(q, key@) < q.len() && q[insert_pos(q, key@)].0 == key@));
        }
        entries.insert(p, (key, val));
        proof {
            lemma_views_of_entries(entries@);
            assert(views_of_entries(entries@) =~= q.insert(p as int, (key@, view_of(val))));
        }
    }
}

/// Looks up `key` in a dictionary's entries.
pub fn dict_get<'a>(entries: &'a Vec<(Vec<u8>, Value)>, key: &[u8]) -> (r: Option<&'a Value>)
    ensures
        match r {
            Some(v) => model_get(views_of_entries(entries@), key@) == Some(view_of(*v)),
            None => model_get(views_of_entries(entries@), key@) is None,
        },
{
    let ghost q = views_of_entries(entries@);
    proof {
        lemma_views_of_entries(entries@);
        assert(q.skip(0) =~= q);
    }
    let mut i: usize = 0;
    while i < entries.len()
        invariant
            0 <= i <= entries@.len(),
            q == views_of_entries(entries@),
            q.len() == entries@.len(),
            forall|j: int| 0 <= j < q.len() ==> #[trigger] q[j] == (entries@[j].0@, view_of(entries@[j].1)),
            model_get(q, key@) == model_get(q.skip(i as int), key@),
        decreases entries@.len() - i,
    {
        proof {
            assert(q.skip(i as int)[0] == q[i as int]);
        }
        if bytes_eq(entries[i].0.as_slice(), key) {
            return Some(&entries[i].1);
        }
        proof {
            assert(q.skip(i as int).drop_first() =~= q.skip(i + 1));
        }
        i = i + 1;
    }
    proof {
        assert(q.skip(i as int).len() == 0);
    }
    None
}

} // verus!
