use vstd::prelude::*;

use vstd::slice::slice_index_get;

use crate::error::Error;

verus! {

broadcast use vstd::seq::group_seq_axioms, vstd::std_specs::vec::group_vec_axioms;

// Token bytes of the grammar.
pub const TOK_INT: u8 = 105;  // 'i'
pub const TOK_LIST: u8 = 108;  // 'l'
pub const TOK_DICT: u8 = 100;  // 'd'
pub const TOK_END: u8 = 101;  // 'e'
pub const TOK_COLON: u8 = 58;  // ':'
pub const TOK_MINUS: u8 = 45;  // '-'
pub const DIGIT_ZERO: u8 = 48;  // '0'
pub const DIGIT_NINE: u8 = 57;  // '9'

pub open spec fn spec_is_digit(b: u8) -> bool {
    DIGIT_ZERO <= b <= DIGIT_NINE
}

/// Whether a byte is an ASCII decimal digit.
pub fn is_digit(n: u8) -> (r: bool)
    ensures
        r == spec_is_digit(n),
{
    n >= DIGIT_ZERO && n <= DIGIT_NINE
}

/// A bencode value, as mathematical data. Dictionary pairs are kept with
/// keys in strictly ascending bytewise order, which is also the canonical
/// order on the wire.
pub ghost enum Bval {
    Integer(i64),
    ByteString(Seq<u8>),
    List(Seq<Bval>),
    Dictionary(Seq<(Seq<u8>, Bval)>),
}

/// Strict bytewise (lexicographic) order on byte strings.
pub open spec fn bytes_lt(a: Seq<u8>, b: Seq<u8>) -> bool
    decreases a.len(),
{
    if b.len() == 0 {
        false
    } else if a.len() == 0 {
        true
    } else if a[0] < b[0] {
        true
    } else if a[0] > b[0] {
        false
    } else {
        bytes_lt(a.drop_first(), b.drop_first())
    }
}

pub proof fn lemma_bytes_lt_irrefl(a: Seq<u8>)
    ensures
        !bytes_lt(a, a),
    decreases a.len(),
{
    if a.len() > 0 {
        lemma_bytes_lt_irrefl(a.drop_first());
    }
}

/// Two byte strings neither of which precedes the other are equal.
pub proof fn lemma_bytes_lt_connected(a: Seq<u8>, b: Seq<u8>)
    requires
        !bytes_lt(a, b),
        !bytes_lt(b, a),
    ensures
        a == b,
    decreases a.len(),
{
    if a.len() == 0 || b.len() == 0 {
        assert(a =~= b);
    } else {
        lemma_bytes_lt_connected(a.drop_first(), b.drop_first());
        assert(a =~= seq![a[0]] + a.drop_first());
        assert(b =~= seq![b[0]] + b.drop_first());
    }
}

pub proof fn lemma_bytes_lt_asym(a: Seq<u8>, b: Seq<u8>)
    requires
        bytes_lt(a, b),
    ensures
        !bytes_lt(b, a),
        a != b,
    decreases a.len(),
{
    if a.len() > 0 && b.len() > 0 && a[0] == b[0] {
        lemma_bytes_lt_asym(a.drop_first(), b.drop_first());
        assert(a =~= seq![a[0]] + a.drop_first());
        assert(b =~= seq![b[0]] + b.drop_first());
    } else {
        lemma_bytes_lt_irrefl(a);
    }
}

pub proof fn lemma_bytes_lt_trans(a: Seq<u8>, b: Seq<u8>, c: Seq<u8>)
    requires
        bytes_lt(a, b),
        bytes_lt(b, c),
    ensures
        bytes_lt(a, c),
    decreases a.len(),
{
    if a.len() > 0 && b.len() > 0 && c.len() > 0 && a[0] == b[0] && b[0] == c[0] {
        lemma_bytes_lt_trans(a.drop_first(), b.drop_first(), c.drop_first());
    }
}

/// Dictionary keys strictly ascend, so they are also pairwise distinct.
pub open spec fn keys_sorted(ps: Seq<(Seq<u8>, Bval)>) -> bool {
    forall|i: int, j: int| 0 <= i < j < ps.len() ==> bytes_lt(#[trigger] ps[i].0, #[trigger] ps[j].0)
}

/// A value all of whose dictionaries have sorted, duplicate-free keys:
/// exactly what the decoder produces and the encoder emits.
pub open spec fn valid_bval(v: Bval) -> bool
    decreases v,
{
    match v {
        Bval::Integer(_) => true,
        Bval::ByteString(_) => true,
        Bval::List(items) => forall|i: int|
            0 <= i < items.len() ==> valid_bval(#[trigger] items[i]),
        Bval::Dictionary(ps) => keys_sorted(ps) && forall|i: int|
            0 <= i < ps.len() ==> valid_bval(#[trigger] ps[i].1),
    }
}

/// Decimal digits of a nonnegative integer, most significant first.
pub open spec fn dec_digits(n: nat) -> Seq<u8>
    decreases n,
{
    if n < 10 {
        seq![(DIGIT_ZERO + n) as u8]
    } else {
        dec_digits(n / 10) + seq![(DIGIT_ZERO + n % 10) as u8]
    }
}

/// The number a sequence of decimal digits denotes.
pub open spec fn digits_val(ds: Seq<u8>) -> int
    decreases ds.len(),
{
    if ds.len() == 0 {
        0
    } else {
        digits_val(ds.drop_last()) * 10 + (ds.last() - DIGIT_ZERO)
    }
}

/// The digit token of an integer value: decimal digits, preceded by a
/// minus sign when negative.
pub open spec fn int_bytes(i: i64) -> Seq<u8> {
    if i >= 0 {
        dec_digits(i as nat)
    } else {
        seq![TOK_MINUS] + dec_digits((-(i as int)) as nat)
    }
}

/// The byte-string token: decimal length, a colon, then the raw bytes.
pub open spec fn str_bytes(s: Seq<u8>) -> Seq<u8> {
    dec_digits(s.len()) + seq![TOK_COLON] + s
}

/// The canonical wire bytes of a value: integers as `i<digits>e`, byte
/// strings as `<len>:<bytes>`, lists as `l<elements>e`, dictionaries as
/// `d<pairs>e` with keys emitted in their stored (ascending) order.
pub open spec fn serialize(v: Bval) -> Seq<u8>
    decreases v,
{
    match v {
        Bval::Integer(i) => seq![TOK_INT] + int_bytes(i) + seq![TOK_END],
        Bval::ByteString(s) => str_bytes(s),
        Bval::List(items) => seq![TOK_LIST] + serialize_items(items) + seq![TOK_END],
        Bval::Dictionary(ps) => seq![TOK_DICT] + serialize_pairs(ps) + seq![TOK_END],
    }
}

pub open spec fn serialize_items(items: Seq<Bval>) -> Seq<u8>
    decreases items,
{
    if items.len() == 0 {
        Seq::empty()
    } else {
        serialize(items[0]) + serialize_items(items.drop_first())
    }
}

pub open spec fn serialize_pairs(ps: Seq<(Seq<u8>, Bval)>) -> Seq<u8>
    decreases ps,
{
    if ps.len() == 0 {
        Seq::empty()
    } else {
        str_bytes(ps[0].0) + serialize(ps[0].1) + serialize_pairs(ps.drop_first())
    }
}

/// A decoded bencode value. Dictionary entries are held with keys in
/// strictly ascending bytewise order whatever order the input used, so
/// re-encoding is canonical.
#[derive(Debug, PartialEq, Eq)]
pub enum BencodeValue {
    Integer(i64),
    ByteString(Vec<u8>),
    List(Vec<BencodeValue>),
    Dictionary(Vec<(Vec<u8>, BencodeValue)>),
}

/// The mathematical values of a sequence of decoded values.
pub open spec fn views_of(items: Seq<BencodeValue>) -> Seq<Bval>
    decreases items,
{
    if items.len() == 0 {
        Seq::empty()
    } else {
        seq![items[0]@] + views_of(items.drop_first())
    }
}

/// The mathematical pairs of a sequence of decoded dictionary entries.
pub open spec fn pair_views_of(ps: Seq<(Vec<u8>, BencodeValue)>) -> Seq<(Seq<u8>, Bval)>
    decreases ps,
{
    if ps.len() == 0 {
        Seq::empty()
    } else {
        seq![(ps[0].0@, ps[0].1@)] + pair_views_of(ps.drop_first())
    }
}

/// `views_of` is the elementwise view.
pub broadcast proof fn lemma_views_of(items: Seq<BencodeValue>)
    ensures
        (#[trigger] views_of(items)).len() == items.len(),
        forall|i: int| 0 <= i < items.len() ==> views_of(items)[i] == #[trigger] items[i]@,
        forall|i: int| 0 <= i < items.len() ==> #[trigger] views_of(items)[i] == items[i]@,
    decreases items.len(),
{
    if items.len() == 0 {
    } else {
        lemma_views_of(items.drop_first());
        assert(views_of(items) == seq![items[0]@] + views_of(items.drop_first()));
        assert forall|i: int| 0 <= i < items.len() implies views_of(items)[i] == items[i]@ by {
            if i > 0 {
                assert(items.drop_first()[i - 1] == items[i]);
            }
        }
    }
}

/// `pair_views_of` is the elementwise view.
pub broadcast proof fn lemma_pair_views_of(ps: Seq<(Vec<u8>, BencodeValue)>)
    ensures
        (#[trigger] pair_views_of(ps)).len() == ps.len(),
        forall|i: int|
            0 <= i < ps.len() ==> pair_views_of(ps)[i] == (#[trigger] ps[i].0@, ps[i].1@),
        forall|i: int|
            0 <= i < ps.len() ==> #[trigger] pair_views_of(ps)[i] == (ps[i].0@, ps[i].1@),
    decreases ps.len(),
{
    if ps.len() == 0 {
    } else {
        lemma_pair_views_of(ps.drop_first());
        assert(pair_views_of(ps) == seq![(ps[0].0@, ps[0].1@)] + pair_views_of(ps.drop_first()));
        assert forall|i: int| 0 <= i < ps.len() implies pair_views_of(ps)[i] == (ps[i].0@, ps[i].1@) by {
            if i > 0 {
                assert(ps.drop_first()[i - 1] == ps[i]);
            }
        }
    }
}

impl View for BencodeValue {
    type V = Bval;

    open spec fn view(&self) -> Bval
        decreases self,
    {
        match self {
            BencodeValue::Integer(i) => Bval::Integer(*i),
            BencodeValue::ByteString(b) => Bval::ByteString(b@),
            BencodeValue::List(items) => Bval::List(views_of(items@)),
            BencodeValue::Dictionary(ps) => Bval::Dictionary(pair_views_of(ps@)),
        }
    }
}

/// Appends the decimal digits of `n`.
fn push_dec(out: &mut Vec<u8>, n: u64)
    ensures
        final(out)@ == old(out)@ + dec_digits(n as nat),
    decreases n,
{
    if n < 10 {
        out.push(DIGIT_ZERO + n as u8);
        assert(out@ =~= old(out)@ + dec_digits(n as nat));
    } else {
        push_dec(out, n / 10);
        out.push(DIGIT_ZERO + (n % 10) as u8);
        assert(out@ =~= old(out)@ + dec_digits(n as nat));
    }
}

proof fn lemma_serialize_items_push(items: Seq<Bval>, x: Bval)
    ensures
        serialize_items(items.push(x)) == serialize_items(items) + serialize(x),
    decreases items.len(),
{
    if items.len() == 0 {
        assert(items.push(x).drop_first() =~= Seq::<Bval>::empty());
        assert(items.push(x)[0] == x);
        assert(serialize_items(items.push(x).drop_first()) == Seq::<u8>::empty());
        assert(serialize_items(items.push(x)) =~= serialize(x));
        assert(serialize_items(items) + serialize(x) =~= serialize(x));
    } else {
        lemma_serialize_items_push(items.drop_first(), x);
        assert(items.push(x).drop_first() =~= items.drop_first().push(x));
        assert(items.push(x)[0] == items[0]);
        assert(serialize_items(items.push(x)) =~= serialize_items(items) + serialize(x));
    }
}

proof fn lemma_serialize_pairs_push(ps: Seq<(Seq<u8>, Bval)>, k: Seq<u8>, v: Bval)
    ensures
        serialize_pairs(ps.push((k, v))) == serialize_pairs(ps) + str_bytes(k) + serialize(v),
    decreases ps.len(),
{
    if ps.len() == 0 {
        assert(ps.push((k, v)).drop_first() =~= Seq::<(Seq<u8>, Bval)>::empty());
        assert(ps.push((k, v))[0] == (k, v));
        assert(serialize_pairs(ps.push((k, v)).drop_first()) == Seq::<u8>::empty());
        assert(serialize_pairs(ps.push((k, v))) =~= str_bytes(k) + serialize(v));
        assert(serialize_pairs(ps) + str_bytes(k) + serialize(v) =~= str_bytes(k) + serialize(v));
    } else {
        lemma_serialize_pairs_push(ps.drop_first(), k, v);
        assert(ps.push((k, v)).drop_first() =~= ps.drop_first().push((k, v)));
        assert(ps.push((k, v))[0] == ps[0]);
        assert(serialize_pairs(ps.push((k, v))) =~= serialize_pairs(ps) + str_bytes(k) + serialize(
            v,
        ));
    }
}

/// Appends the byte-string token for `b`.
fn push_str_token(out: &mut Vec<u8>, b: &Vec<u8>)
    ensures
        final(out)@ == old(out)@ + str_bytes(b@),
{
    push_dec(out, b.len() as u64);
    out.push(TOK_COLON);
    let mut i: usize = 0;
    while i < b.len()
        invariant
            i <= b@.len(),
            out@ == old(out)@ + dec_digits(b@.len()) + seq![TOK_COLON] + b@.take(i as int),
        decreases b@.len() - i,
    {
        out.push(b[i]);
        assert(out@ =~= old(out)@ + dec_digits(b@.len()) + seq![TOK_COLON] + b@.take(i + 1));
        i += 1;
    }
    assert(b@.take(b@.len() as int) =~= b@);
    assert(out@ =~= old(out)@ + str_bytes(b@));
}

/// Appends the canonical encoding of `v`.
fn encode_into(out: &mut Vec<u8>, v: &BencodeValue)
    ensures
        final(out)@ == old(out)@ + serialize(v@),
    decreases v,
{
    broadcast use lemma_views_of, lemma_pair_views_of;

    match v {
        BencodeValue::Integer(i) => {
            out.push(TOK_INT);
            if *i < 0 {
                out.push(TOK_MINUS);
                let mag: u64 = if *i == i64::MIN {
                    9223372036854775808u64
                } else {
                    (-*i) as u64
                };
                assert(mag as int == -(*i as int));
                push_dec(out, mag);
            } else {
                push_dec(out, *i as u64);
            }
            out.push(TOK_END);
            assert(out@ =~= old(out)@ + serialize(v@));
        },
        BencodeValue::ByteString(b) => {
            push_str_token(out, b);
        },
        BencodeValue::List(items) => {
            out.push(TOK_LIST);
            let ghost vs = views_of(items@);
            proof {
                lemma_views_of(items@);
            }
            let mut i: usize = 0;
            while i < items.len()
                invariant
                    i <= items@.len(),
                    *v == BencodeValue::List(*items),
                    vs == views_of(items@),
                    vs.len() == items@.len(),
                    out@ == old(out)@ + seq![TOK_LIST] + serialize_items(vs.take(i as int)),
                decreases items@.len() - i,
            {
                proof {
                    lemma_views_of(items@);
                    assert(decreases_to!(*v => v->List_0));
                    assert(v->List_0 == *items);
                    assert(decreases_to!(*items => items@));
                    assert(decreases_to!(items@ => items@[i as int]));
                }
                encode_into(out, &items[i]);
                proof {
                    lemma_serialize_items_push(vs.take(i as int), vs[i as int]);
                    assert(vs.take(i + 1) =~= vs.take(i as int).push(vs[i as int]));
                    assert(out@ =~= old(out)@ + seq![TOK_LIST] + serialize_items(vs.take(i + 1)));
                }
                i += 1;
            }
            out.push(TOK_END);
            proof {
                assert(vs.take(vs.len() as int) =~= vs);
                assert(out@ =~= old(out)@ + serialize(v@));
            }
        },
        BencodeValue::Dictionary(ps) => {
            out.push(TOK_DICT);
            let ghost pvs = pair_views_of(ps@);
            proof {
                lemma_pair_views_of(ps@);
            }
            let mut i: usize = 0;
            while i < ps.len()
                invariant
                    i <= ps@.len(),
                    *v == BencodeValue::Dictionary(*ps),
                    pvs == pair_views_of(ps@),
                    pvs.len() == ps@.len(),
                    out@ == old(out)@ + seq![TOK_DICT] + serialize_pairs(pvs.take(i as int)),
                decreases ps@.len() - i,
            {
                push_str_token(out, &ps[i].0);
                proof {
                    lemma_pair_views_of(ps@);
                    assert(decreases_to!(*v => v->Dictionary_0));
                    assert(v->Dictionary_0 == *ps);
                    assert(decreases_to!(*ps => ps@));
                    assert(decreases_to!(ps@ => ps@[i as int]));
                    assert(decreases_to!(ps@[i as int] => ps@[i as int].1));
                }
                encode_into(out, &ps[i].1);
                proof {
                    lemma_serialize_pairs_push(
                        pvs.take(i as int),
                        pvs[i as int].0,
                        pvs[i as int].1,
                    );
                    assert(pvs.take(i + 1) =~= pvs.take(i as int).push(pvs[i as int]));
                    assert(out@ =~= old(out)@ + seq![TOK_DICT] + serialize_pairs(pvs.take(i + 1)));
                }
                i += 1;
            }
            out.push(TOK_END);
            proof {
                assert(pvs.take(pvs.len() as int) =~= pvs);
                assert(out@ =~= old(out)@ + serialize(v@));
            }
        },
    }
}

/// Encodes a value canonically: dictionary keys go out in ascending
/// bytewise order because that is how they are stored.
pub fn encode(v: &BencodeValue) -> (r: Vec<u8>)
    ensures
        r@ == serialize(v@),
{
    let mut out: Vec<u8> = Vec::new();
    encode_into(&mut out, v);
    out
}

/// Index of the first non-digit byte at or after `i`.
pub open spec fn scan_digits(s: Seq<u8>, i: int) -> int
    decreases s.len() - i,
{
    if 0 <= i < s.len() && spec_is_digit(s[i]) {
        scan_digits(s, i + 1)
    } else {
        i
    }
}

pub proof fn lemma_scan_digits(s: Seq<u8>, i: int)
    requires
        0 <= i <= s.len(),
    ensures
        i <= scan_digits(s, i) <= s.len(),
        forall|k: int| i <= k < scan_digits(s, i) ==> spec_is_digit(#[trigger] s[k]),
        scan_digits(s, i) < s.len() ==> !spec_is_digit(s[scan_digits(s, i)]),
    decreases s.len() - i,
{
    if i < s.len() && spec_is_digit(s[i]) {
        lemma_scan_digits(s, i + 1);
    }
}

/// Reads an `i<digits>e` token standing at the front of `s`. Rejected as
/// malformed: an empty digit string, a missing terminator, a leading zero
/// (other than the literal `0`), a negative zero, and a value outside the
/// signed 64-bit range.
pub open spec fn spec_parse_int(s: Seq<u8>) -> Option<(Bval, int)> {
    let neg = s.len() > 1 && s[1] == TOK_MINUS;
    let d0: int = if neg {
        2
    } else {
        1
    };
    let dend = scan_digits(s, d0);
    if dend == d0 {
        None
    } else if dend >= s.len() || s[dend] != TOK_END {
        None
    } else {
        let ds = s.subrange(d0, dend);
        if ds.len() > 1 && ds[0] == DIGIT_ZERO {
            None
        } else {
            let m = digits_val(ds);
            if neg && m == 0 {
                None
            } else {
                let val: int = if neg {
                    -m
                } else {
                    m
                };
                if val < i64::MIN || val > i64::MAX {
                    None
                } else {
                    Some((Bval::Integer(val as i64), dend + 1))
                }
            }
        }
    }
}

/// Reads a `<len>:<bytes>` token standing at the front of `s`. A declared
/// length that exceeds the remaining buffer, a missing colon, an empty or
/// zero-led length are all rejected.
pub open spec fn spec_parse_str(s: Seq<u8>) -> Option<(Seq<u8>, int)> {
    let dend = scan_digits(s, 0);
    if dend == 0 {
        None
    } else {
        let ds = s.subrange(0, dend);
        if ds.len() > 1 && ds[0] == DIGIT_ZERO {
            None
        } else if dend >= s.len() || s[dend] != TOK_COLON {
            None
        } else {
            let n = digits_val(ds);
            if dend + 1 + n > s.len() {
                None
            } else {
                Some((s.subrange(dend + 1, dend + 1 + n), dend + 1 + n))
            }
        }
    }
}

/// Inserts a pair into a key-sorted pair sequence, refusing a duplicate
/// key.
pub open spec fn kv_insert(ps: Seq<(Seq<u8>, Bval)>, k: Seq<u8>, v: Bval) -> Option<
    Seq<(Seq<u8>, Bval)>,
>
    decreases ps.len(),
{
    if ps.len() == 0 {
        Some(seq![(k, v)])
    } else if bytes_lt(k, ps[0].0) {
        Some(seq![(k, v)] + ps)
    } else if k == ps[0].0 {
        None
    } else {
        match kv_insert(ps.drop_first(), k, v) {
            Some(r) => Some(seq![ps[0]] + r),
            None => None,
        }
    }
}

/// Reads one value standing at the front of `s`: `None` exactly on a
/// grammar violation or a truncated buffer.
pub open spec fn spec_parse(s: Seq<u8>) -> Option<(Bval, int)>
    decreases s.len(), 0int,
{
    if s.len() == 0 {
        None
    } else if s[0] == TOK_INT {
        spec_parse_int(s)
    } else if spec_is_digit(s[0]) {
        match spec_parse_str(s) {
            Some((c, n)) => Some((Bval::ByteString(c), n)),
            None => None,
        }
    } else if s[0] == TOK_LIST {
        match spec_parse_items(s.skip(1)) {
            Some((items, n)) => Some((Bval::List(items), 1 + n)),
            None => None,
        }
    } else if s[0] == TOK_DICT {
        match spec_parse_pairs(s.skip(1)) {
            Some((ps, n)) => Some((Bval::Dictionary(ps), 1 + n)),
            None => None,
        }
    } else {
        None
    }
}

/// Reads list elements up to and including the terminator.
pub open spec fn spec_parse_items(s: Seq<u8>) -> Option<(Seq<Bval>, int)>
    decreases s.len(), 1int,
{
    if s.len() == 0 {
        None
    } else if s[0] == TOK_END {
        Some((Seq::empty(), 1))
    } else {
        match spec_parse(s) {
            Some((v, n)) => if 1 <= n <= s.len() {
                match spec_parse_items(s.skip(n)) {
                    Some((items, m)) => Some((seq![v] + items, n + m)),
                    None => None,
                }
            } else {
                None
            },
            None => None,
        }
    }
}

/// Reads dictionary pairs up to and including the terminator. Keys must
/// be byte-string tokens; pairs are gathered in ascending key order
/// whatever order the input used, and a duplicate key is refused.
pub open spec fn spec_parse_pairs(s: Seq<u8>) -> Option<(Seq<(Seq<u8>, Bval)>, int)>
    decreases s.len(), 1int,
{
    if s.len() == 0 {
        None
    } else if s[0] == TOK_END {
        Some((Seq::empty(), 1))
    } else if !spec_is_digit(s[0]) {
        None
    } else {
        match spec_parse_str(s) {
            Some((k, n)) => if 1 <= n <= s.len() {
                match spec_parse(s.skip(n)) {
                    Some((v, m)) => if 1 <= m <= s.len() - n {
                        match spec_parse_pairs(s.skip(n + m)) {
                            Some((ps, t)) => match kv_insert(ps, k, v) {
                                Some(ps2) => Some((ps2, n + m + t)),
                                None => None,
                            },
                            None => None,
                        }
                    } else {
                        None
                    },
                    None => None,
                }
            } else {
                None
            },
            None => None,
        }
    }
}

/// A string of decimal digits denotes a nonnegative number.
pub proof fn lemma_digits_val_nonneg(ds: Seq<u8>)
    requires
        forall|k: int| 0 <= k < ds.len() ==> spec_is_digit(#[trigger] ds[k]),
    ensures
        0 <= digits_val(ds),
    decreases ds.len(),
{
    if ds.len() > 0 {
        assert(forall|k: int|
            0 <= k < ds.drop_last().len() ==> spec_is_digit(#[trigger] ds.drop_last()[k]));
        lemma_digits_val_nonneg(ds.drop_last());
    }
}

/// A byte-string token occupies between 2 bytes and the whole buffer.
pub proof fn lemma_parse_str_consumed(s: Seq<u8>)
    ensures
        spec_parse_str(s) matches Some((c, n)) ==> 2 <= n <= s.len() && c.len() < n,
{
    lemma_scan_digits(s, 0);
    let dend = scan_digits(s, 0);
    if 0 < dend <= s.len() {
        let ds = s.subrange(0, dend);
        assert(forall|k: int| 0 <= k < ds.len() ==> spec_is_digit(#[trigger] ds[k]));
        lemma_digits_val_nonneg(ds);
    }
}

/// A parsed value occupies between 1 byte and the whole buffer.
pub proof fn lemma_parse_consumed(s: Seq<u8>)
    ensures
        spec_parse(s) matches Some((v, n)) ==> 1 <= n <= s.len(),
    decreases s.len(), 0int,
{
    if s.len() == 0 {
    } else if s[0] == TOK_INT {
        let neg = s.len() > 1 && s[1] == TOK_MINUS;
        let d0: int = if neg {
            2
        } else {
            1
        };
        lemma_scan_digits(s, d0);
    } else if spec_is_digit(s[0]) {
        lemma_parse_str_consumed(s);
    } else if s[0] == TOK_LIST {
        lemma_parse_items_consumed(s.skip(1));
    } else if s[0] == TOK_DICT {
        lemma_parse_pairs_consumed(s.skip(1));
    }
}

pub proof fn lemma_parse_items_consumed(s: Seq<u8>)
    ensures
        spec_parse_items(s) matches Some((items, n)) ==> 1 <= n <= s.len(),
    decreases s.len(), 1int,
{
    if s.len() == 0 || s[0] == TOK_END {
    } else {
        lemma_parse_consumed(s);
        match spec_parse(s) {
            Some((v, n)) => {
                if 1 <= n <= s.len() {
                    lemma_parse_items_consumed(s.skip(n));
                }
            },
            None => {},
        }
    }
}

pub proof fn lemma_parse_pairs_consumed(s: Seq<u8>)
    ensures
        spec_parse_pairs(s) matches Some((ps, n)) ==> 1 <= n <= s.len(),
    decreases s.len(), 1int,
{
    if s.len() == 0 || s[0] == TOK_END || !spec_is_digit(s[0]) {
    } else {
        lemma_parse_str_consumed(s);
        match spec_parse_str(s) {
            Some((k, n)) => {
                if 1 <= n <= s.len() {
                    lemma_parse_consumed(s.skip(n));
                    match spec_parse(s.skip(n)) {
                        Some((v, m)) => {
                            if 1 <= m <= s.len() - n {
                                lemma_parse_pairs_consumed(s.skip(n + m));
                            }
                        },
                        None => {},
                    }
                }
            },
            None => {},
        }
    }
}

pub open spec fn pow10(k: nat) -> int
    decreases k,
{
    if k == 0 {
        1
    } else {
        10 * pow10((k - 1) as nat)
    }
}

/// Digit strings denote less than one followed by `len` zeros.
pub proof fn lemma_digits_val_upper(ds: Seq<u8>)
    requires
        forall|k: int| 0 <= k < ds.len() ==> spec_is_digit(#[trigger] ds[k]),
    ensures
        digits_val(ds) < pow10(ds.len()),
    decreases ds.len(),
{
    if ds.len() > 0 {
        assert(forall|k: int|
            0 <= k < ds.drop_last().len() ==> spec_is_digit(#[trigger] ds.drop_last()[k]));
        lemma_digits_val_upper(ds.drop_last());
    }
}

/// A zero-led-free digit string of `len` digits denotes at least one
/// followed by `len - 1` zeros.
pub proof fn lemma_digits_val_lower(ds: Seq<u8>)
    requires
        ds.len() >= 1,
        ds[0] != DIGIT_ZERO,
        forall|k: int| 0 <= k < ds.len() ==> spec_is_digit(#[trigger] ds[k]),
    ensures
        digits_val(ds) >= pow10((ds.len() - 1) as nat),
    decreases ds.len(),
{
    if ds.len() == 1 {
    } else {
        assert(ds.drop_last()[0] == ds[0]);
        assert(forall|k: int|
            0 <= k < ds.drop_last().len() ==> spec_is_digit(#[trigger] ds.drop_last()[k]));
        lemma_digits_val_lower(ds.drop_last());
        assert(digits_val(ds) == digits_val(ds.drop_last()) * 10 + (ds.last() - DIGIT_ZERO));
        assert(ds.last() - DIGIT_ZERO >= 0);
        assert(pow10((ds.len() - 1) as nat) == 10 * pow10((ds.len() - 2) as nat));
        assert(digits_val(ds.drop_last()) * 10 >= pow10((ds.len() - 2) as nat) * 10);
    }
}

proof fn lemma_pow10_20()
    ensures
        pow10(20) == 100000000000000000000,
        pow10(19) == 10000000000000000000,
{
    reveal_with_fuel(pow10, 21);
}

/// Parses the digit run starting at `pos` into its numeric value.
/// Refused: an empty run, a multi-digit run led by zero, and a run of
/// more than 20 digits (whose value then exceeds any real buffer or
/// 64-bit quantity).
fn parse_digits(buf: &[u8], pos: usize) -> (r: Result<(u128, usize), Error>)
    requires
        pos <= buf@.len(),
    ensures
        match r {
            Ok((val, dend)) => {
                &&& dend as int == scan_digits(buf@, pos as int)
                &&& pos < dend <= buf@.len()
                &&& !(dend - pos > 1 && buf@[pos as int] == DIGIT_ZERO)
                &&& val as int == digits_val(buf@.subrange(pos as int, dend as int))
            },
            Err(e) => e == Error::MalformedBencode && {
                let dd = scan_digits(buf@, pos as int);
                ||| dd == pos
                ||| (dd - pos > 1 && buf@[pos as int] == DIGIT_ZERO)
                ||| digits_val(buf@.subrange(pos as int, dd)) > u64::MAX
            },
        },
{
    proof {
        lemma_scan_digits(buf@, pos as int);
    }
    let ghost dd = scan_digits(buf@, pos as int);
    let mut k: usize = pos;
    let mut acc: u128 = 0;
    while k < buf.len() && is_digit(buf[k]) && k - pos < 21
        invariant
            pos <= k <= buf@.len(),
            dd == scan_digits(buf@, pos as int),
            k <= dd,
            k - pos <= 21,
            acc as int == digits_val(buf@.subrange(pos as int, k as int)),
            (acc as int) < pow10((k - pos) as nat),
            forall|t: int| pos <= t < dd ==> spec_is_digit(#[trigger] buf@[t]),
            dd <= buf@.len(),
            dd < buf@.len() ==> !spec_is_digit(buf@[dd as int]),
        decreases buf@.len() - k,
    {
        let d = buf[k] - DIGIT_ZERO;
        proof {
            lemma_pow10_20();
            lemma_pow10_mono((k - pos) as nat, 20);
            assert(buf@.subrange(pos as int, k + 1).drop_last() =~= buf@.subrange(
                pos as int,
                k as int,
            ));
            assert(k < dd) by {
                lemma_scan_digits(buf@, pos as int);
                if k >= dd {
                    assert(!spec_is_digit(buf@[k as int]));
                }
            }
        }
        acc = acc * 10 + d as u128;
        k += 1;
    }
    proof {
        lemma_pow10_20();
    }
    if k == pos {
        return Err(Error::MalformedBencode);
    }
    assert(k == dd || k - pos == 21) by {
        if k < buf.len() && k - pos < 21 {
            assert(!spec_is_digit(buf@[k as int]));
            lemma_scan_digits_from(buf@, k as int);
        } else if k - pos < 21 {
            lemma_scan_digits_from(buf@, k as int);
        }
    }
    if buf[pos] == DIGIT_ZERO && k - pos > 1 {
        proof {
            if k - pos == 21 {
                assert(buf@.subrange(pos as int, dd)[0] == buf@[pos as int]);
            }
        }
        return Err(Error::MalformedBencode);
    }
    if k - pos == 21 {
        proof {
            let ds = buf@.subrange(pos as int, dd);
            assert(dd - pos >= 21);
            assert(ds[0] == buf@[pos as int] && ds[0] != DIGIT_ZERO);
            assert(forall|t: int| 0 <= t < ds.len() ==> spec_is_digit(#[trigger] ds[t]));
            lemma_digits_val_lower(ds);
            lemma_pow10_mono((20) as nat, (ds.len() - 1) as nat);
        }
        return Err(Error::MalformedBencode);
    }
    Ok((acc, k))
}

/// `scan_digits` stops exactly at the first non-digit.
proof fn lemma_scan_digits_from(s: Seq<u8>, k: int)
    requires
        0 <= k <= s.len(),
        k < s.len() ==> !spec_is_digit(s[k]),
    ensures
        scan_digits(s, k) == k,
{
}

proof fn lemma_pow10_mono(a: nat, b: nat)
    requires
        a <= b,
    ensures
        pow10(a) <= pow10(b),
    decreases b,
{
    if a < b {
        lemma_pow10_mono(a, (b - 1) as nat);
        assert(pow10(b) == 10 * pow10((b - 1) as nat));
        lemma_pow10_pos((b - 1) as nat);
    }
}

proof fn lemma_pow10_pos(a: nat)
    ensures
        pow10(a) >= 1,
    decreases a,
{
    if a > 0 {
        lemma_pow10_pos((a - 1) as nat);
    }
}

proof fn lemma_scan_digits_shift(s: Seq<u8>, p: int, i: int)
    requires
        0 <= p,
        0 <= i,
        p + i <= s.len(),
    ensures
        scan_digits(s.skip(p), i) == scan_digits(s, p + i) - p,
    decreases s.len() - p - i,
{
    if p + i < s.len() && spec_is_digit(s[p + i]) {
        lemma_scan_digits_shift(s, p, i + 1);
    }
}

/// A fresh copy of the bytes at `[i, j)`.
pub(crate) fn copy_range(buf: &[u8], i: usize, j: usize) -> (r: Vec<u8>)
    requires
        i <= j <= buf@.len(),
    ensures
        r@ == buf@.subrange(i as int, j as int),
{
    let mut out: Vec<u8> = Vec::new();
    let mut k: usize = i;
    while k < j
        invariant
            i <= k <= j <= buf@.len(),
            out@ == buf@.subrange(i as int, k as int),
        decreases j - k,
    {
        out.push(buf[k]);
        assert(out@ =~= buf@.subrange(i as int, k + 1));
        k += 1;
    }
    out
}

/// Reads the byte-string token at `pos`.
fn parse_str_at(buf: &[u8], pos: usize) -> (r: Result<(Vec<u8>, usize), Error>)
    requires
        pos <= buf@.len(),
    ensures
        match r {
            Ok((c, end)) => pos < end <= buf@.len() && spec_parse_str(buf@.skip(pos as int))
                == Some((c@, end - pos)),
            Err(e) => e == Error::MalformedBencode && spec_parse_str(buf@.skip(pos as int)) is None,
        },
{
    let blen = buf.len();
    let ghost t = buf@.skip(pos as int);
    proof {
        lemma_scan_digits_shift(buf@, pos as int, 0);
        lemma_scan_digits(buf@, pos as int);
        lemma_scan_digits(t, 0);
    }
    let ghost dd_abs = scan_digits(buf@, pos as int);
    let ghost dd_rel = scan_digits(t, 0);
    let ghost ds = t.subrange(0, dd_rel);
    proof {
        assert(ds =~= buf@.subrange(pos as int, dd_abs));
        if 0 < dd_rel {
            assert(forall|k: int| 0 <= k < ds.len() ==> spec_is_digit(#[trigger] ds[k]));
            lemma_digits_val_nonneg(ds);
        }
    }
    let parsed = parse_digits(buf, pos);
    let (val, dend) = match parsed {
        Ok(x) => x,
        Err(_) => {
            proof {
                if dd_abs == pos {
                } else if dd_abs - pos > 1 && buf@[pos as int] == DIGIT_ZERO {
                    assert(ds[0] == buf@[pos as int]);
                } else {
                    assert(digits_val(ds) > u64::MAX);
                    if dd_rel < t.len() && t[dd_rel] == TOK_COLON {
                        assert(t.len() <= u64::MAX);
                        assert(dd_rel + 1 + digits_val(ds) > t.len());
                    }
                }
            }
            return Err(Error::MalformedBencode);
        },
    };
    if dend >= blen || *slice_index_get(buf, dend) != TOK_COLON {
        proof {
            assert(dd_rel >= t.len() || t[dd_rel] != TOK_COLON);
        }
        return Err(Error::MalformedBencode);
    }
    let remaining = blen - dend - 1;
    if val > remaining as u128 {
        proof {
            assert(dd_rel + 1 + digits_val(ds) > t.len());
        }
        return Err(Error::MalformedBencode);
    }
    let n = val as usize;
    let content = copy_range(buf, dend + 1, dend + 1 + n);
    proof {
        assert(content@ =~= t.subrange(dd_rel + 1, dd_rel + 1 + digits_val(ds)));
    }
    Ok((content, dend + 1 + n))
}

/// Reads the `i<digits>e` token at `pos`.
fn parse_int_at(buf: &[u8], pos: usize) -> (r: Result<(i64, usize), Error>)
    requires
        pos < buf@.len(),
        buf@[pos as int] == TOK_INT,
    ensures
        match r {
            Ok((i, end)) => pos < end <= buf@.len() && spec_parse_int(buf@.skip(pos as int))
                == Some((Bval::Integer(i), end - pos)),
            Err(e) => e == Error::MalformedBencode && spec_parse_int(buf@.skip(pos as int)) is None,
        },
{
    let blen = buf.len();
    let ghost t = buf@.skip(pos as int);
    let neg = pos + 1 < blen && *slice_index_get(buf, pos + 1) == TOK_MINUS;
    let d0 = if neg {
        pos + 2
    } else {
        pos + 1
    };
    let ghost d0_rel: int = if neg {
        2int
    } else {
        1int
    };
    proof {
        assert(neg == (t.len() > 1 && t[1] == TOK_MINUS));
        lemma_scan_digits_shift(buf@, pos as int, d0_rel);
        lemma_scan_digits(buf@, d0 as int);
        lemma_scan_digits(t, d0_rel);
    }
    let ghost dd_abs = scan_digits(buf@, d0 as int);
    let ghost dd_rel = scan_digits(t, d0_rel);
    let ghost ds = t.subrange(d0_rel, dd_rel);
    proof {
        assert(ds =~= buf@.subrange(d0 as int, dd_abs));
        if d0_rel < dd_rel {
            assert(forall|k: int| 0 <= k < ds.len() ==> spec_is_digit(#[trigger] ds[k]));
            lemma_digits_val_nonneg(ds);
        }
    }
    let parsed = parse_digits(buf, d0);
    let (val, dend) = match parsed {
        Ok(x) => x,
        Err(_) => {
            proof {
                if dd_abs == d0 {
                } else if dd_abs - d0 > 1 && buf@[d0 as int] == DIGIT_ZERO {
                    assert(ds[0] == buf@[d0 as int]);
                } else {
                    assert(digits_val(ds) > u64::MAX);
                }
            }
            return Err(Error::MalformedBencode);
        },
    };
    if dend >= blen || *slice_index_get(buf, dend) != TOK_END {
        proof {
            assert(dd_rel >= t.len() || t[dd_rel] != TOK_END);
        }
        return Err(Error::MalformedBencode);
    }
    if neg && val == 0 {
        return Err(Error::MalformedBencode);
    }
    let end = dend + 1;
    if neg {
        if val > 9223372036854775808u128 {
            return Err(Error::MalformedBencode);
        }
        let i: i64 = if val == 9223372036854775808u128 {
            i64::MIN
        } else {
            -(val as i64)
        };
        Ok((i, end))
    } else {
        if val > 9223372036854775807u128 {
            return Err(Error::MalformedBencode);
        }
        Ok((val as i64, end))
    }
}

/// A strict prefix precedes, equal byte strings tie, and otherwise the
/// first differing byte decides.
proof fn lemma_bytes_lt_skip(a: Seq<u8>, b: Seq<u8>, i: int)
    requires
        0 <= i <= a.len(),
        i <= b.len(),
        forall|j: int| 0 <= j < i ==> a[j] == b[j],
    ensures
        bytes_lt(a, b) == bytes_lt(a.skip(i), b.skip(i)),
    decreases i,
{
    if i > 0 {
        assert(a.len() > 0 && b.len() > 0 && a[0] == b[0]);
        lemma_bytes_lt_skip(a.drop_first(), b.drop_first(), i - 1);
        assert(a.drop_first().skip(i - 1) =~= a.skip(i));
        assert(b.drop_first().skip(i - 1) =~= b.skip(i));
    } else {
        assert(a.skip(0) =~= a);
        assert(b.skip(0) =~= b);
    }
}

/// Three-way bytewise comparison: -1, 0 or 1 as `a` precedes, equals or
/// follows `b`.
fn compare_keys(a: &Vec<u8>, b: &Vec<u8>) -> (r: i8)
    ensures
        r == -1 || r == 0 || r == 1,
        (r == -1) ==> bytes_lt(a@, b@),
        (r == 0) ==> a@ == b@,
        (r == 1) ==> bytes_lt(b@, a@),
{
    let mut i: usize = 0;
    while i < a.len() && i < b.len()
        invariant
            i <= a@.len(),
            i <= b@.len(),
            forall|j: int| 0 <= j < i ==> a@[j] == b@[j],
        decreases a@.len() - i,
    {
        if a[i] < b[i] {
            proof {
                lemma_bytes_lt_skip(a@, b@, i as int);
                assert(a@.skip(i as int)[0] == a@[i as int]);
                assert(b@.skip(i as int)[0] == b@[i as int]);
            }
            return -1;
        }
        if a[i] > b[i] {
            proof {
                lemma_bytes_lt_skip(b@, a@, i as int);
                assert(a@.skip(i as int)[0] == a@[i as int]);
                assert(b@.skip(i as int)[0] == b@[i as int]);
            }
            return 1;
        }
        i += 1;
    }
    if a.len() == b.len() {
        assert(a@ =~= b@);
        0
    } else if a.len() < b.len() {
        proof {
            lemma_bytes_lt_skip(a@, b@, a@.len() as int);
            assert(a@.skip(a@.len() as int).len() == 0);
            assert(b@.skip(a@.len() as int).len() > 0);
        }
        -1
    } else {
        proof {
            lemma_bytes_lt_skip(b@, a@, b@.len() as int);
            assert(b@.skip(b@.len() as int).len() == 0);
            assert(a@.skip(b@.len() as int).len() > 0);
        }
        1
    }
}

proof fn lemma_kv_insert_at(ps: Seq<(Seq<u8>, Bval)>, k: Seq<u8>, v: Bval, t: int)
    requires
        0 <= t <= ps.len(),
        forall|j: int| 0 <= j < t ==> bytes_lt(#[trigger] ps[j].0, k),
        t < ps.len() ==> bytes_lt(k, ps[t].0),
    ensures
        kv_insert(ps, k, v) == Some(ps.take(t) + seq![(k, v)] + ps.skip(t)),
    decreases t,
{
    if ps.len() == 0 {
        assert(ps.take(t) + seq![(k, v)] + ps.skip(t) =~= seq![(k, v)]);
    } else if t == 0 {
        assert(ps.take(0) + seq![(k, v)] + ps.skip(0) =~= seq![(k, v)] + ps);
    } else {
        lemma_bytes_lt_asym(ps[0].0, k);
        assert(forall|j: int|
            0 <= j < t - 1 ==> bytes_lt(#[trigger] ps.drop_first()[j].0, k));
        lemma_kv_insert_at(ps.drop_first(), k, v, t - 1);
        assert(seq![ps[0]] + (ps.drop_first().take(t - 1) + seq![(k, v)] + ps.drop_first().skip(
            t - 1,
        )) =~= ps.take(t) + seq![(k, v)] + ps.skip(t));
    }
}

proof fn lemma_kv_insert_dup(ps: Seq<(Seq<u8>, Bval)>, k: Seq<u8>, v: Bval, t: int)
    requires
        0 <= t < ps.len(),
        forall|j: int| 0 <= j < t ==> bytes_lt(#[trigger] ps[j].0, k),
        ps[t].0 == k,
    ensures
        kv_insert(ps, k, v) is None,
    decreases t,
{
    if t == 0 {
        lemma_bytes_lt_irrefl(k);
    } else {
        lemma_bytes_lt_asym(ps[0].0, k);
        assert(forall|j: int|
            0 <= j < t - 1 ==> bytes_lt(#[trigger] ps.drop_first()[j].0, k));
        lemma_kv_insert_dup(ps.drop_first(), k, v, t - 1);
    }
}

/// Inserts a decoded pair at its sorted position, refusing a duplicate
/// key.
fn insert_pair(pairs: &mut Vec<(Vec<u8>, BencodeValue)>, k: Vec<u8>, v: BencodeValue) -> (r:
    Result<(), Error>)
    ensures
        match r {
            Ok(()) => kv_insert(pair_views_of(old(pairs)@), k@, v@) == Some(
                pair_views_of(final(pairs)@),
            ),
            Err(e) => e == Error::MalformedBencode && kv_insert(
                pair_views_of(old(pairs)@),
                k@,
                v@,
            ) is None,
        },
{
    proof {
        lemma_pair_views_of(pairs@);
    }
    let ghost pvs = pair_views_of(pairs@);
    let mut i: usize = 0;
    while i < pairs.len()
        invariant
            i <= pairs@.len(),
            *pairs == *old(pairs),
            pvs == pair_views_of(pairs@),
            pvs.len() == pairs@.len(),
            forall|j: int| 0 <= j < i ==> bytes_lt(#[trigger] pvs[j].0, k@),
        decreases pairs@.len() - i,
    {
        proof {
            lemma_pair_views_of(pairs@);
        }
        let c = compare_keys(&k, &pairs[i].0);
        if c == 0 {
            proof {
                lemma_kv_insert_dup(pvs, k@, v@, i as int);
            }
            return Err(Error::MalformedBencode);
        }
        if c == -1 {
            proof {
                lemma_kv_insert_at(pvs, k@, v@, i as int);
            }
            let ghost gi = i as int;
            pairs.insert(i, (k, v));
            proof {
                old(pairs)@.insert_ensures(gi, (k, v));
                lemma_pair_views_of(pairs@);
                lemma_pair_views_of(old(pairs)@);
                let target = pvs.take(gi) + seq![(k@, v@)] + pvs.skip(gi);
                assert forall|j: int| 0 <= j < pair_views_of(pairs@).len() implies pair_views_of(
                    pairs@,
                )[j] == target[j] by {
                    if j < gi {
                        assert(pairs@[j] == old(pairs)@[j]);
                    } else if j == gi {
                        assert(pairs@[j] == (k, v));
                    } else {
                        assert(pairs@[j] == old(pairs)@[j - 1]);
                    }
                }
                assert(pair_views_of(pairs@) =~= target);
            }
            return Ok(());
        }
        i += 1;
    }
    proof {
        lemma_kv_insert_at(pvs, k@, v@, pvs.len() as int);
    }
    let ghost gi = pairs@.len() as int;
    pairs.push((k, v));
    proof {
        lemma_pair_views_of(pairs@);
        lemma_pair_views_of(old(pairs)@);
        let target = pvs.take(gi) + seq![(k@, v@)] + pvs.skip(gi);
        assert forall|j: int| 0 <= j < pair_views_of(pairs@).len() implies pair_views_of(
            pairs@,
        )[j] == target[j] by {
            if j < gi {
                assert(pairs@[j] == old(pairs)@[j]);
            } else {
                assert(pairs@[j] == (k, v));
            }
        }
        assert(pair_views_of(pairs@) =~= target);
    }
    Ok(())
}

/// Reads the value at `pos`, materializing it.
fn parse_at(buf: &[u8], pos: usize) -> (r: Result<(BencodeValue, usize), Error>)
    requires
        pos <= buf@.len(),
    ensures
        match r {
            Ok((v, end)) => pos < end <= buf@.len() && spec_parse(buf@.skip(pos as int)) == Some(
                (v@, end - pos),
            ),
            Err(e) => e == Error::MalformedBencode && spec_parse(buf@.skip(pos as int)) is None,
        },
    decreases buf@.len() - pos, 0int,
{
    let blen = buf.len();
    let ghost t = buf@.skip(pos as int);
    if pos >= blen {
        return Err(Error::MalformedBencode);
    }
    assert(t[0] == buf@[pos as int]);
    let b = *slice_index_get(buf, pos);
    if b == TOK_INT {
        match parse_int_at(buf, pos) {
            Ok((i, end)) => Ok((BencodeValue::Integer(i), end)),
            Err(e) => Err(e),
        }
    } else if is_digit(b) {
        match parse_str_at(buf, pos) {
            Ok((c, end)) => Ok((BencodeValue::ByteString(c), end)),
            Err(e) => Err(e),
        }
    } else if b == TOK_LIST {
        proof {
            assert(t.skip(1) =~= buf@.skip(pos + 1));
        }
        match parse_items_at(buf, pos + 1) {
            Ok((items, end)) => Ok((BencodeValue::List(items), end)),
            Err(e) => Err(e),
        }
    } else if b == TOK_DICT {
        proof {
            assert(t.skip(1) =~= buf@.skip(pos + 1));
        }
        match parse_pairs_at(buf, pos + 1) {
            Ok((ps, end)) => Ok((BencodeValue::Dictionary(ps), end)),
            Err(e) => Err(e),
        }
    } else {
        Err(Error::MalformedBencode)
    }
}

/// Reads list elements at `pos` up to and including the terminator.
fn parse_items_at(buf: &[u8], pos: usize) -> (r: Result<(Vec<BencodeValue>, usize), Error>)
    requires
        pos <= buf@.len(),
    ensures
        match r {
            Ok((items, end)) => pos < end <= buf@.len() && spec_parse_items(buf@.skip(pos as int))
                == Some((views_of(items@), end - pos)),
            Err(e) => e == Error::MalformedBencode && spec_parse_items(
                buf@.skip(pos as int),
            ) is None,
        },
    decreases buf@.len() - pos, 1int,
{
    let blen = buf.len();
    let ghost t = buf@.skip(pos as int);
    if pos >= blen {
        return Err(Error::MalformedBencode);
    }
    assert(t[0] == buf@[pos as int]);
    if *slice_index_get(buf, pos) == TOK_END {
        let items: Vec<BencodeValue> = Vec::new();
        assert(views_of(items@) =~= Seq::<Bval>::empty());
        return Ok((items, pos + 1));
    }
    let (v, p) = match parse_at(buf, pos) {
        Ok(x) => x,
        Err(e) => {
            return Err(e);
        },
    };
    proof {
        assert(t.skip(p - pos) =~= buf@.skip(p as int));
    }
    let (mut items, end) = match parse_items_at(buf, p) {
        Ok(x) => x,
        Err(e) => {
            return Err(e);
        },
    };
    let ghost pre = items@;
    items.insert(0, v);
    proof {
        pre.insert_ensures(0, v);
        lemma_views_of(items@);
        lemma_views_of(pre);
        assert forall|j: int| 0 <= j < views_of(items@).len() implies views_of(items@)[j] == (
        seq![v@] + views_of(pre))[j] by {
            if j == 0 {
                assert(items@[0] == v);
            } else {
                assert(items@[j] == pre[j - 1]);
            }
        }
        assert(views_of(items@) =~= seq![v@] + views_of(pre));
    }
    Ok((items, end))
}

/// Reads dictionary pairs at `pos` up to and including the terminator,
/// gathering them in ascending key order and refusing duplicates.
fn parse_pairs_at(buf: &[u8], pos: usize) -> (r: Result<
    (Vec<(Vec<u8>, BencodeValue)>, usize),
    Error,
>)
    requires
        pos <= buf@.len(),
    ensures
        match r {
            Ok((ps, end)) => pos < end <= buf@.len() && spec_parse_pairs(buf@.skip(pos as int))
                == Some((pair_views_of(ps@), end - pos)),
            Err(e) => e == Error::MalformedBencode && spec_parse_pairs(
                buf@.skip(pos as int),
            ) is None,
        },
    decreases buf@.len() - pos, 1int,
{
    let blen = buf.len();
    let ghost t = buf@.skip(pos as int);
    if pos >= blen {
        return Err(Error::MalformedBencode);
    }
    assert(t[0] == buf@[pos as int]);
    let b = *slice_index_get(buf, pos);
    if b == TOK_END {
        let ps: Vec<(Vec<u8>, BencodeValue)> = Vec::new();
        assert(pair_views_of(ps@) =~= Seq::<(Seq<u8>, Bval)>::empty());
        return Ok((ps, pos + 1));
    }
    if !is_digit(b) {
        return Err(Error::MalformedBencode);
    }
    let (k, p1) = match parse_str_at(buf, pos) {
        Ok(x) => x,
        Err(e) => {
            return Err(e);
        },
    };
    proof {
        assert(t.skip(p1 - pos) =~= buf@.skip(p1 as int));
    }
    let (v, p2) = match parse_at(buf, p1) {
        Ok(x) => x,
        Err(e) => {
            return Err(e);
        },
    };
    proof {
        assert(t.skip(p2 - pos) =~= buf@.skip(p2 as int));
    }
    let (mut pairs, end) = match parse_pairs_at(buf, p2) {
        Ok(x) => x,
        Err(e) => {
            return Err(e);
        },
    };
    match insert_pair(&mut pairs, k, v) {
        Ok(()) => Ok((pairs, end)),
        Err(e) => Err(e),
    }
}

/// Reads one bencode value from the front of `buf`, returning it with the
/// count of bytes it occupied. Exactly the buffers the grammar refuses
/// are reported as malformed: an unexpected lookahead byte, a truncated
/// token or terminator, a non-canonical integer, a byte string running
/// past the buffer, or a duplicate dictionary key.
pub fn decode(buf: &[u8]) -> (r: Result<(BencodeValue, usize), Error>)
    ensures
        match r {
            Ok((v, n)) => 0 < n <= buf@.len() && spec_parse(buf@) == Some((v@, n as int)),
            Err(e) => e == Error::MalformedBencode && spec_parse(buf@) is None,
        },
{
    proof {
        assert(buf@.skip(0) =~= buf@);
    }
    parse_at(buf, 0)
}

proof fn lemma_scan_digits_exact(s: Seq<u8>, i: int, j: int)
    requires
        0 <= i <= j <= s.len(),
        forall|k: int| i <= k < j ==> spec_is_digit(#[trigger] s[k]),
        j == s.len() || !spec_is_digit(s[j]),
    ensures
        scan_digits(s, i) == j,
    decreases j - i,
{
    if i < j {
        lemma_scan_digits_exact(s, i + 1, j);
    }
}

/// Decimal digit strings are digits, start with zero only for the value
/// zero, and denote their value.
proof fn lemma_dec_digits_props(n: nat)
    ensures
        dec_digits(n).len() >= 1,
        forall|k: int| 0 <= k < dec_digits(n).len() ==> spec_is_digit(#[trigger] dec_digits(n)[k]),
        (dec_digits(n)[0] == DIGIT_ZERO) <==> n == 0,
        digits_val(dec_digits(n)) == n,
        n < 10 <==> dec_digits(n).len() == 1,
    decreases n,
{
    if n < 10 {
        reveal_with_fuel(digits_val, 3);
        assert(dec_digits(n) == seq![(DIGIT_ZERO + n) as u8]);
        assert(dec_digits(n).drop_last() =~= Seq::<u8>::empty());
    } else {
        lemma_dec_digits_props(n / 10);
        let front = dec_digits(n / 10);
        let whole = dec_digits(n);
        assert(whole == front + seq![(DIGIT_ZERO + n % 10) as u8]);
        assert(whole[0] == front[0]);
        assert(whole.drop_last() =~= front);
        assert(whole.last() == (DIGIT_ZERO + n % 10) as u8);
        assert(whole.last() - DIGIT_ZERO == n % 10);
        assert(digits_val(whole) == digits_val(front) * 10 + (whole.last() - DIGIT_ZERO));
        assert(digits_val(whole) == (n / 10) * 10 + n % 10);
        assert(n == 10 * (n / 10) + n % 10) by (nonlinear_arith);
    }
}

/// The first byte of a serialized value names its variant, and is never
/// the terminator byte.
proof fn lemma_serialize_first(v: Bval)
    ensures
        serialize(v).len() >= 2,
        v is Integer ==> serialize(v)[0] == TOK_INT,
        v is ByteString ==> spec_is_digit(serialize(v)[0]),
        v is List ==> serialize(v)[0] == TOK_LIST,
        v is Dictionary ==> serialize(v)[0] == TOK_DICT,
        serialize(v)[0] != TOK_END,
{
    match v {
        Bval::Integer(i) => {
            if i >= 0 {
                lemma_dec_digits_props(i as nat);
            } else {
                lemma_dec_digits_props((-(i as int)) as nat);
            }
        },
        Bval::ByteString(c) => {
            lemma_dec_digits_props(c.len());
            assert(serialize(v)[0] == dec_digits(c.len())[0]);
        },
        Bval::List(items) => {},
        Bval::Dictionary(ps) => {},
    }
}

/// A serialized byte-string token parses back to its string, whatever
/// follows it.
proof fn lemma_str_token_parse(c: Seq<u8>, rest: Seq<u8>)
    ensures
        spec_parse_str(str_bytes(c) + rest) == Some((c, str_bytes(c).len() as int)),
{
    let s = str_bytes(c) + rest;
    let dl = dec_digits(c.len()).len() as int;
    lemma_dec_digits_props(c.len());
    assert(forall|k: int| 0 <= k < dl ==> s[k] == dec_digits(c.len())[k]);
    assert(s[dl] == TOK_COLON);
    lemma_scan_digits_exact(s, 0, dl);
    let ds = s.subrange(0, dl);
    assert(ds =~= dec_digits(c.len()));
    assert(digits_val(ds) == c.len());
    assert(s.subrange(dl + 1, dl + 1 + c.len() as int) =~= c);
}

/// A serialized integer token parses back to its value, whatever follows
/// it.
proof fn lemma_int_token_parse(i: i64, rest: Seq<u8>)
    ensures
        spec_parse_int(seq![TOK_INT] + int_bytes(i) + seq![TOK_END] + rest) == Some(
            (Bval::Integer(i), 2 + int_bytes(i).len() as int),
        ),
{
    let s = seq![TOK_INT] + int_bytes(i) + seq![TOK_END] + rest;
    let mag: nat = if i >= 0 {
        i as nat
    } else {
        (-(i as int)) as nat
    };
    lemma_dec_digits_props(mag);
    let dl = dec_digits(mag).len() as int;
    let neg = i < 0;
    let d0: int = if neg {
        2
    } else {
        1
    };
    assert(s.len() > 1);
    if neg {
        assert(s[1] == TOK_MINUS);
    } else {
        assert(s[1] == dec_digits(mag)[0]);
        assert(s[1] != TOK_MINUS);
    }
    assert(forall|k: int| d0 <= k < d0 + dl ==> s[k] == dec_digits(mag)[k - d0]);
    assert(s[d0 + dl] == TOK_END);
    lemma_scan_digits_exact(s, d0, d0 + dl);
    let ds = s.subrange(d0, d0 + dl);
    assert(ds =~= dec_digits(mag));
    assert(digits_val(ds) == mag);
}

/// Inserting a fresh key into a sorted pair sequence keeps it sorted, and
/// adds nothing but that pair.
proof fn lemma_kv_insert_props(ps: Seq<(Seq<u8>, Bval)>, k: Seq<u8>, v: Bval)
    requires
        keys_sorted(ps),
    ensures
        kv_insert(ps, k, v) matches Some(ps2) ==> keys_sorted(ps2) && ps2.len() == ps.len() + 1
            && forall|i: int|
            0 <= i < ps2.len() ==> (#[trigger] ps2[i] == (k, v) || ps.contains(ps2[i])),
    decreases ps.len(),
{
    if ps.len() == 0 {
        let ps2 = seq![(k, v)];
        assert(keys_sorted(ps2));
    } else if bytes_lt(k, ps[0].0) {
        let ps2 = seq![(k, v)] + ps;
        assert forall|i: int, j: int| 0 <= i < j < ps2.len() implies bytes_lt(
            #[trigger] ps2[i].0,
            #[trigger] ps2[j].0,
        ) by {
            if i == 0 {
                if j > 1 {
                    lemma_bytes_lt_trans(k, ps[0].0, ps[j - 1].0);
                }
            }
        }
        assert(forall|i: int| 0 <= i < ps2.len() ==> (#[trigger] ps2[i] == (k, v) || ps.contains(
            ps2[i],
        )));
    } else if k == ps[0].0 {
    } else {
        lemma_bytes_lt_connected_helper(ps[0].0, k);
        let dropped = ps.drop_first();
        assert(keys_sorted(dropped)) by {
            assert(forall|i: int, j: int|
                0 <= i < j < dropped.len() ==> bytes_lt(
                    #[trigger] dropped[i].0,
                    #[trigger] dropped[j].0,
                ));
        }
        lemma_kv_insert_props(dropped, k, v);
        match kv_insert(dropped, k, v) {
            Some(r) => {
                let ps2 = seq![ps[0]] + r;
                assert forall|i: int, j: int| 0 <= i < j < ps2.len() implies bytes_lt(
                    #[trigger] ps2[i].0,
                    #[trigger] ps2[j].0,
                ) by {
                    if i == 0 {
                        assert(ps2[j] == r[j - 1]);
                        if r[j - 1] == (k, v) {
                            assert(bytes_lt(ps[0].0, k));
                        } else {
                            assert(dropped.contains(r[j - 1]));
                            let w = choose|w: int|
                                0 <= w < dropped.len() && dropped[w] == r[j - 1];
                            assert(bytes_lt(ps[0].0, dropped[w].0));
                        }
                    }
                }
                assert forall|i: int| 0 <= i < ps2.len() implies (#[trigger] ps2[i] == (k, v)
                    || ps.contains(ps2[i])) by {
                    if i == 0 {
                        assert(ps[0] == ps2[0]);
                        assert(ps.contains(ps2[0]));
                    } else {
                        assert(ps2[i] == r[i - 1]);
                        if r[i - 1] == (k, v) {
                        } else {
                            assert(dropped.contains(r[i - 1]));
                            let w = choose|w: int|
                                0 <= w < dropped.len() && dropped[w] == r[i - 1];
                            assert(ps[w + 1] == dropped[w]);
                            assert(ps.contains(ps2[i]));
                        }
                    }
                }
            },
            None => {},
        }
    }
}

proof fn lemma_bytes_lt_connected_helper(a: Seq<u8>, b: Seq<u8>)
    requires
        !bytes_lt(b, a),
        a != b,
    ensures
        bytes_lt(a, b),
{
    if !bytes_lt(a, b) {
        lemma_bytes_lt_connected(a, b);
    }
}

/// Whatever the decoder accepts is valid: every dictionary anywhere in
/// the value holds its keys in strictly ascending bytewise order with no
/// duplicates — so re-encoding always emits canonical key order.
pub proof fn lemma_parse_valid(s: Seq<u8>)
    ensures
        spec_parse(s) matches Some((v, n)) ==> valid_bval(v),
    decreases s.len(), 0int,
{
    if s.len() == 0 {
    } else if s[0] == TOK_INT {
    } else if spec_is_digit(s[0]) {
    } else if s[0] == TOK_LIST {
        lemma_parse_items_valid(s.skip(1));
    } else if s[0] == TOK_DICT {
        lemma_parse_pairs_valid(s.skip(1));
    }
}

proof fn lemma_parse_items_valid(s: Seq<u8>)
    ensures
        spec_parse_items(s) matches Some((items, n)) ==> forall|i: int|
            0 <= i < items.len() ==> valid_bval(#[trigger] items[i]),
    decreases s.len(), 1int,
{
    if s.len() == 0 || s[0] == TOK_END {
    } else {
        lemma_parse_valid(s);
        match spec_parse(s) {
            Some((v, n)) => {
                if 1 <= n <= s.len() {
                    lemma_parse_items_valid(s.skip(n));
                    match spec_parse_items(s.skip(n)) {
                        Some((items, m)) => {
                            assert(forall|i: int|
                                0 <= i < (seq![v] + items).len() ==> valid_bval(
                                    #[trigger] (seq![v] + items)[i],
                                ));
                        },
                        None => {},
                    }
                }
            },
            None => {},
        }
    }
}

proof fn lemma_parse_pairs_valid(s: Seq<u8>)
    ensures
        spec_parse_pairs(s) matches Some((ps, n)) ==> keys_sorted(ps) && forall|i: int|
            0 <= i < ps.len() ==> valid_bval(#[trigger] ps[i].1),
    decreases s.len(), 1int,
{
    if s.len() == 0 || s[0] == TOK_END || !spec_is_digit(s[0]) {
    } else {
        match spec_parse_str(s) {
            Some((k, n)) => {
                if 1 <= n <= s.len() {
                    lemma_parse_valid(s.skip(n));
                    match spec_parse(s.skip(n)) {
                        Some((v, m)) => {
                            if 1 <= m <= s.len() - n {
                                lemma_parse_pairs_valid(s.skip(n + m));
                                match spec_parse_pairs(s.skip(n + m)) {
                                    Some((ps, t)) => {
                                        lemma_kv_insert_props(ps, k, v);
                                        match kv_insert(ps, k, v) {
                                            Some(ps2) => {
                                                assert forall|i: int|
                                                    0 <= i < ps2.len() implies valid_bval(
                                                    #[trigger] ps2[i].1,
                                                ) by {
                                                    if ps2[i] == (k, v) {
                                                    } else {
                                                        assert(ps.contains(ps2[i]));
                                                        let w = choose|w: int|
                                                            0 <= w < ps.len() && ps[w] == ps2[i];
                                                        assert(valid_bval(ps[w].1));
                                                    }
                                                }
                                            },
                                            None => {},
                                        }
                                    },
                                    None => {},
                                }
                            }
                        },
                        None => {},
                    }
                }
            },
            None => {},
        }
    }
}

/// A serialized valid value parses back to itself, whatever follows it.
proof fn lemma_parse_serialize_prefix(v: Bval, rest: Seq<u8>)
    requires
        valid_bval(v),
    ensures
        spec_parse(serialize(v) + rest) == Some((v, serialize(v).len() as int)),
    decreases v,
{
    let s = serialize(v) + rest;
    lemma_serialize_first(v);
    match v {
        Bval::Integer(i) => {
            assert(s =~= seq![TOK_INT] + int_bytes(i) + seq![TOK_END] + rest);
            lemma_int_token_parse(i, rest);
            assert(s[0] == TOK_INT);
        },
        Bval::ByteString(c) => {
            assert(s =~= str_bytes(c) + rest);
            lemma_str_token_parse(c, rest);
            assert(spec_is_digit(s[0]) && s[0] != TOK_INT);
        },
        Bval::List(items) => {
            assert(s[0] == TOK_LIST && s[0] != TOK_INT && !spec_is_digit(s[0]));
            assert(s.skip(1) =~= serialize_items(items) + seq![TOK_END] + rest);
            lemma_parse_items_serialize(items, rest);
        },
        Bval::Dictionary(ps) => {
            assert(s[0] == TOK_DICT && s[0] != TOK_INT && !spec_is_digit(s[0]));
            assert(s.skip(1) =~= serialize_pairs(ps) + seq![TOK_END] + rest);
            lemma_parse_pairs_serialize(ps, rest);
        },
    }
}

proof fn lemma_parse_items_serialize(items: Seq<Bval>, rest: Seq<u8>)
    requires
        forall|i: int| 0 <= i < items.len() ==> valid_bval(#[trigger] items[i]),
    ensures
        spec_parse_items(serialize_items(items) + seq![TOK_END] + rest) == Some(
            (items, serialize_items(items).len() as int + 1),
        ),
    decreases items,
{
    let s = serialize_items(items) + seq![TOK_END] + rest;
    if items.len() == 0 {
        assert(s[0] == TOK_END);
        assert(items =~= Seq::<Bval>::empty());
    } else {
        let v0 = items[0];
        let dropped = items.drop_first();
        let rest2 = serialize_items(dropped) + seq![TOK_END] + rest;
        assert(s =~= serialize(v0) + rest2);
        lemma_serialize_first(v0);
        assert(s[0] == serialize(v0)[0]);
        assert(s[0] != TOK_END);
        lemma_parse_serialize_prefix(v0, rest2);
        let n = serialize(v0).len() as int;
        assert(1 <= n <= s.len());
        assert(s.skip(n) =~= rest2);
        lemma_parse_items_serialize(dropped, rest);
        assert(seq![v0] + dropped =~= items);
    }
}

#[verifier::rlimit(40)]
proof fn lemma_parse_pairs_serialize(ps: Seq<(Seq<u8>, Bval)>, rest: Seq<u8>)
    requires
        keys_sorted(ps),
        forall|i: int| 0 <= i < ps.len() ==> valid_bval(#[trigger] ps[i].1),
    ensures
        spec_parse_pairs(serialize_pairs(ps) + seq![TOK_END] + rest) == Some(
            (ps, serialize_pairs(ps).len() as int + 1),
        ),
    decreases ps,
{
    let s = serialize_pairs(ps) + seq![TOK_END] + rest;
    if ps.len() == 0 {
        assert(s[0] == TOK_END);
        assert(ps =~= Seq::<(Seq<u8>, Bval)>::empty());
    } else {
        let k0 = ps[0].0;
        let v0 = ps[0].1;
        let dropped = ps.drop_first();
        let rest2 = serialize(v0) + serialize_pairs(dropped) + seq![TOK_END] + rest;
        let rest3 = serialize_pairs(dropped) + seq![TOK_END] + rest;
        assert(s =~= str_bytes(k0) + rest2);
        lemma_dec_digits_props(k0.len());
        assert(s[0] == dec_digits(k0.len())[0]);
        assert(spec_is_digit(s[0]) && s[0] != TOK_END);
        lemma_str_token_parse(k0, rest2);
        let n = str_bytes(k0).len() as int;
        assert(1 <= n <= s.len());
        assert(s.skip(n) =~= serialize(v0) + rest3);
        lemma_parse_serialize_prefix(v0, rest3);
        let m = serialize(v0).len() as int;
        lemma_serialize_first(v0);
        assert(1 <= m <= s.len() - n);
        assert(s.skip(n).skip(m) =~= rest3);
        assert(s.skip(n + m) =~= rest3);
        assert(keys_sorted(dropped)) by {
            assert(forall|i: int, j: int|
                0 <= i < j < dropped.len() ==> bytes_lt(
                    #[trigger] dropped[i].0,
                    #[trigger] dropped[j].0,
                ));
        }
        lemma_parse_pairs_serialize(dropped, rest);
        if dropped.len() == 0 {
            assert(kv_insert(dropped, k0, v0) == Some(seq![(k0, v0)]));
            assert(seq![(k0, v0)] =~= ps);
        } else {
            assert(bytes_lt(k0, dropped[0].0));
            assert(kv_insert(dropped, k0, v0) == Some(seq![(k0, v0)] + dropped));
            assert(seq![(k0, v0)] + dropped =~= ps);
        }
    }
}

/// Round trip: any valid value — in particular any value the decoder
/// produced or the library's own types describe — parses back from its
/// canonical encoding to exactly itself, consuming exactly its bytes.
pub proof fn lemma_round_trip(v: Bval)
    requires
        valid_bval(v),
    ensures
        spec_parse(serialize(v)) == Some((v, serialize(v).len() as int)),
{
    lemma_parse_serialize_prefix(v, Seq::empty());
    assert(serialize(v) + Seq::<u8>::empty() =~= serialize(v));
}

/// Whether the end offset reports one whole element at `pos`, validated
/// by the same grammar as `decode`.
pub open spec fn span_result_ok(s: Seq<u8>, pos: int, r: Result<usize, Error>) -> bool {
    match r {
        Ok(end) => spec_parse(s.skip(pos)) matches Some((v, n)) && end == pos + n,
        Err(e) => e == Error::MalformedBencode && spec_parse(s.skip(pos)) is None,
    }
}

/// Validates the element at `pos` — any of the four forms — and returns
/// the offset just past it. Shares the one grammar with `decode`: a
/// malformed stream fails here exactly as it fails there.
pub fn read_element(buf: &[u8], pos: usize) -> (r: Result<usize, Error>)
    requires
        pos <= buf@.len(),
    ensures
        span_result_ok(buf@, pos as int, r),
        r matches Ok(end) ==> pos < end <= buf@.len(),
{
    match parse_at(buf, pos) {
        Ok((_, end)) => Ok(end),
        Err(e) => Err(e),
    }
}

/// Validates the `i<digits>e` token at `pos` and returns the offset just
/// past it.
pub fn read_integer(buf: &[u8], pos: usize) -> (r: Result<usize, Error>)
    requires
        pos <= buf@.len(),
    ensures
        match r {
            Ok(end) => pos < end <= buf@.len() && buf@[pos as int] == TOK_INT && (spec_parse_int(
                buf@.skip(pos as int),
            ) matches Some((v, n)) && end == pos + n),
            Err(e) => e == Error::MalformedBencode && (pos >= buf@.len() || buf@[pos as int]
                != TOK_INT || spec_parse_int(buf@.skip(pos as int)) is None),
        },
{
    if pos >= buf.len() || *slice_index_get(buf, pos) != TOK_INT {
        return Err(Error::MalformedBencode);
    }
    match parse_int_at(buf, pos) {
        Ok((_, end)) => Ok(end),
        Err(e) => Err(e),
    }
}

/// Validates the `<len>:<bytes>` token at `pos` and returns the offset
/// just past it.
pub fn read_bytes(buf: &[u8], pos: usize) -> (r: Result<usize, Error>)
    requires
        pos <= buf@.len(),
    ensures
        match r {
            Ok(end) => pos < end <= buf@.len() && (spec_parse_str(buf@.skip(pos as int)) matches
                Some((c, n)) && end == pos + n),
            Err(e) => e == Error::MalformedBencode && spec_parse_str(
                buf@.skip(pos as int),
            ) is None,
        },
{
    match parse_str_at(buf, pos) {
        Ok((_, end)) => Ok(end),
        Err(e) => Err(e),
    }
}

/// Validates the `l<elements>e` form at `pos` and returns the offset just
/// past it.
pub fn read_list(buf: &[u8], pos: usize) -> (r: Result<usize, Error>)
    requires
        pos <= buf@.len(),
    ensures
        match r {
            Ok(end) => pos < end <= buf@.len() && buf@[pos as int] == TOK_LIST && (spec_parse(
                buf@.skip(pos as int),
            ) matches Some((v, n)) && v is List && end == pos + n),
            Err(e) => e == Error::MalformedBencode && (pos >= buf@.len() || buf@[pos as int]
                != TOK_LIST || spec_parse(buf@.skip(pos as int)) is None),
        },
{
    if pos >= buf.len() || *slice_index_get(buf, pos) != TOK_LIST {
        return Err(Error::MalformedBencode);
    }
    assert(buf@.skip(pos as int)[0] == buf@[pos as int]);
    match parse_at(buf, pos) {
        Ok((_, end)) => Ok(end),
        Err(e) => Err(e),
    }
}

/// Validates the `d<pairs>e` form at `pos` and returns the offset just
/// past it.
pub fn read_dict(buf: &[u8], pos: usize) -> (r: Result<usize, Error>)
    requires
        pos <= buf@.len(),
    ensures
        match r {
            Ok(end) => pos < end <= buf@.len() && buf@[pos as int] == TOK_DICT && (spec_parse(
                buf@.skip(pos as int),
            ) matches Some((v, n)) && v is Dictionary && end == pos + n),
            Err(e) => e == Error::MalformedBencode && (pos >= buf@.len() || buf@[pos as int]
                != TOK_DICT || spec_parse(buf@.skip(pos as int)) is None),
        },
{
    if pos >= buf.len() || *slice_index_get(buf, pos) != TOK_DICT {
        return Err(Error::MalformedBencode);
    }
    assert(buf@.skip(pos as int)[0] == buf@[pos as int]);
    match parse_at(buf, pos) {
        Ok((_, end)) => Ok(end),
        Err(e) => Err(e),
    }
}

/// Walks the pair stream of a dictionary body for `key`, returning the
/// exact source bytes of its value, type and length prefix included.
pub open spec fn spec_find_raw(s: Seq<u8>, key: Seq<u8>) -> Option<Seq<u8>>
    decreases s.len(),
{
    if s.len() == 0 {
        None
    } else if s[0] == TOK_END {
        None
    } else {
        match spec_parse_str(s) {
            Some((k, n)) => if 1 <= n <= s.len() {
                match spec_parse(s.skip(n)) {
                    Some((v, m)) => if 0 <= m <= s.len() - n {
                        if k == key {
                            Some(s.skip(n).take(m))
                        } else if 1 <= m {
                            spec_find_raw(s.skip(n + m), key)
                        } else {
                            None
                        }
                    } else {
                        None
                    },
                    None => None,
                }
            } else {
                None
            },
            None => None,
        }
    }
}

/// The exact source bytes of the value under `key` in a buffer that is a
/// single well-formed dictionary; `None` when the buffer is malformed,
/// not a dictionary, or lacks the key.
pub open spec fn spec_value_in_dict(s: Seq<u8>, key: Seq<u8>) -> Option<Seq<u8>> {
    match spec_parse(s) {
        Some((v, n)) => if v is Dictionary {
            spec_find_raw(s.skip(1), key)
        } else {
            None
        },
        None => None,
    }
}

/// The views of a sequence of byte vectors.
pub open spec fn byte_vec_views(vs: Seq<Vec<u8>>) -> Seq<Seq<u8>> {
    Seq::new(vs.len(), |i: int| vs[i]@)
}

/// Whether the byte contents are equal.
pub(crate) fn bytes_eq(a: &[u8], b: &[u8]) -> (r: bool)
    ensures
        r <==> a@ == b@,
{
    if a.len() != b.len() {
        proof {
            assert(a@ != b@);
        }
        return false;
    }
    let mut i: usize = 0;
    while i < a.len()
        invariant
            a@.len() == b@.len(),
            i <= a@.len(),
            forall|j: int| 0 <= j < i ==> a@[j] == b@[j],
        decreases a@.len() - i,
    {
        if *slice_index_get(a, i) != *slice_index_get(b, i) {
            return false;
        }
        i += 1;
    }
    proof {
        assert(a@ =~= b@);
    }
    true
}

/// Looks up `key` in the top-level dictionary of `source`, first holding
/// the whole buffer to the grammar, and hands back a copy of the exact
/// source bytes of the value — the span the identifying hash is computed
/// over. A malformed buffer is reported as such; a well-formed buffer
/// that is not a dictionary, or lacks the key, as a schema violation.
pub fn value_in_dict(source: &[u8], key: &[u8]) -> (r: Result<Vec<u8>, Error>)
    ensures
        match r {
            Ok(bytes) => spec_value_in_dict(source@, key@) == Some(bytes@),
            Err(e) => spec_value_in_dict(source@, key@) is None && (e == Error::MalformedBencode
                || e == Error::SchemaViolation) && ((e == Error::MalformedBencode) <==> spec_parse(
                source@,
            ) is None),
        },
{
    proof {
        assert(source@.skip(0) =~= source@);
    }
    match parse_at(source, 0) {
        Ok(_) => {},
        Err(_) => {
            return Err(Error::MalformedBencode);
        },
    }
    if *slice_index_get(source, 0) != TOK_DICT {
        proof {
            assert(!(spec_parse(source@)->Some_0.0 is Dictionary));
        }
        return Err(Error::SchemaViolation);
    }
    let ghost body = source@.skip(1);
    proof {
        assert(spec_parse_pairs(body) is Some);
    }
    let mut pos: usize = 1;
    loop
        invariant
            1 <= pos <= source@.len(),
            source@.len() >= 1,
            source@[0] == TOK_DICT,
            spec_parse(source@) is Some,
            spec_parse(source@)->Some_0.0 is Dictionary,
            body == source@.skip(1),
            spec_parse_pairs(source@.skip(pos as int)) is Some,
            spec_find_raw(body, key@) == spec_find_raw(source@.skip(pos as int), key@),
        decreases source@.len() - pos,
    {
        let ghost t = source@.skip(pos as int);
        assert(t.len() > 0) by {
            if pos >= source@.len() {
                assert(t.len() == 0);
            }
        }
        assert(t[0] == source@[pos as int]);
        if *slice_index_get(source, pos) == TOK_END {
            return Err(Error::SchemaViolation);
        }
        assert(spec_is_digit(t[0])) by {
            if !spec_is_digit(t[0]) {
                assert(spec_parse_pairs(t) is None);
            }
        }
        let (k, p1) = match parse_str_at(source, pos) {
            Ok(x) => x,
            Err(_) => {
                proof {
                    assert(spec_parse_pairs(t) is None);
                }
                return Err(Error::SchemaViolation);
            },
        };
        proof {
            lemma_parse_str_consumed(t);
            assert(t.skip(p1 - pos) =~= source@.skip(p1 as int));
        }
        let (_, p2) = match parse_at(source, p1) {
            Ok(x) => x,
            Err(_) => {
                proof {
                    assert(spec_parse_pairs(t) is None);
                }
                return Err(Error::SchemaViolation);
            },
        };
        proof {
            lemma_parse_consumed(source@.skip(p1 as int));
            assert(t.skip(p2 - pos) =~= source@.skip(p2 as int));
        }
        if bytes_eq(k.as_slice(), key) {
            let raw = copy_range(source, p1, p2);
            proof {
                assert(raw@ =~= t.skip(p1 - pos).take(p2 - p1));
            }
            return Ok(raw);
        }
        proof {
            assert(spec_parse_pairs(source@.skip(p2 as int)) is Some) by {
                if spec_parse_pairs(source@.skip(p2 as int)) is None {
                    assert(spec_parse_pairs(t) is None);
                }
            }
            assert(spec_find_raw(t, key@) == spec_find_raw(source@.skip(p2 as int), key@));
        }
        pos = p2;
    }
}

/// The exact source bytes of the value a path of dictionary keys leads
/// to: each step must find a well-formed dictionary holding the key, as
/// the decoder's own grammar judges it; an empty path names the whole
/// first value. `None` when any step is malformed or any key absent.
pub open spec fn spec_extract_path(s: Seq<u8>, path: Seq<Seq<u8>>) -> Option<Seq<u8>>
    decreases path.len(),
{
    if path.len() == 0 {
        match spec_parse(s) {
            Some((v, n)) => Some(s.take(n)),
            None => None,
        }
    } else if path.len() == 1 {
        spec_value_in_dict(s, path[0])
    } else {
        match spec_value_in_dict(s, path[0]) {
            Some(raw) => spec_extract_path(raw, path.drop_first()),
            None => None,
        }
    }
}

/// Walks dictionary keys level by level — without assuming anything the
/// grammar has not checked — and hands back a copy of the exact byte
/// span the matched value occupies, type and length prefix included.
pub fn extract_raw_subvalue(buffer: &[u8], path: &[Vec<u8>]) -> (r: Result<Vec<u8>, Error>)
    ensures
        match r {
            Ok(bytes) => spec_extract_path(buffer@, byte_vec_views(path@)) == Some(bytes@),
            Err(e) => spec_extract_path(buffer@, byte_vec_views(path@)) is None && (e
                == Error::MalformedBencode || e == Error::SchemaViolation),
        },
{
    let ghost kviews = byte_vec_views(path@);
    if path.len() == 0 {
        match read_element(buffer, 0) {
            Ok(end) => {
                proof {
                    assert(buffer@.skip(0) =~= buffer@);
                    assert(buffer@.take(end as int) =~= buffer@.subrange(0, end as int));
                }
                return Ok(copy_range(buffer, 0, end));
            },
            Err(e) => {
                proof {
                    assert(buffer@.skip(0) =~= buffer@);
                }
                return Err(e);
            },
        }
    }
    assert(kviews[0] == path@[0]@);
    let mut cur = match value_in_dict(buffer, path[0].as_slice()) {
        Ok(raw) => raw,
        Err(e) => {
            proof {
                if kviews.len() > 1 {
                    assert(spec_extract_path(buffer@, kviews) is None);
                }
            }
            return Err(e);
        },
    };
    proof {
        if kviews.len() > 1 {
            assert(kviews.skip(1) =~= kviews.drop_first());
        }
    }
    let mut i: usize = 1;
    while i < path.len()
        invariant
            1 <= i <= path@.len(),
            kviews == byte_vec_views(path@),
            kviews.len() == path@.len(),
            forall|j: int| 0 <= j < kviews.len() ==> #[trigger] kviews[j] == path@[j]@,
            i < kviews.len() ==> spec_extract_path(buffer@, kviews) == spec_extract_path(
                cur@,
                kviews.skip(i as int),
            ),
            i == kviews.len() ==> spec_extract_path(buffer@, kviews) == Some(cur@),
        decreases path@.len() - i,
    {
        let ghost rest = kviews.skip(i as int);
        assert(rest[0] == kviews[i as int]);
        let next = match value_in_dict(cur.as_slice(), path[i].as_slice()) {
            Ok(raw) => raw,
            Err(e) => {
                proof {
                    if rest.len() > 1 {
                        assert(spec_extract_path(cur@, rest) is None);
                    }
                }
                return Err(e);
            },
        };
        proof {
            if rest.len() > 1 {
                assert(rest.drop_first() =~= kviews.skip(i + 1));
            }
        }
        cur = next;
        i += 1;
    }
    Ok(cur)
}

} // verus!
