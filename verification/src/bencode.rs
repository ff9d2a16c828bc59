use vstd::prelude::*;

use crate::util::{copy_range, dec_text, int_text};

verus! {

broadcast use vstd::std_specs::vec::group_vec_axioms;

/// A bencoded value: integer, byte string, list, or dictionary.
/// Dictionaries keep their entries in the order they appear on the wire.
#[derive(Debug, PartialEq, Eq)]
pub enum Bencode {
    Int(i64),
    Bytes(Vec<u8>),
    List(Vec<Bencode>),
    Dict(Vec<(Vec<u8>, Bencode)>),
}

/// Canonical bencode serialization of a value.
pub open spec fn enc(v: Bencode) -> Seq<u8>
    decreases v,
{
    match v {
        Bencode::Int(i) => seq![105u8] + int_text(i as int) + seq![101u8],
        Bencode::Bytes(b) => dec_text(b@.len() as int) + seq![58u8] + b@,
        Bencode::List(items) => seq![108u8] + enc_items(items@) + seq![101u8],
        Bencode::Dict(pairs) => seq![100u8] + enc_pairs(pairs@) + seq![101u8],
    }
}

pub open spec fn enc_items(s: Seq<Bencode>) -> Seq<u8>
    decreases s,
{
    if s.len() == 0 {
        Seq::empty()
    } else {
        enc(s[0]) + enc_items(s.drop_first())
    }
}

pub open spec fn enc_pairs(s: Seq<(Vec<u8>, Bencode)>) -> Seq<u8>
    decreases s,
{
    if s.len() == 0 {
        Seq::empty()
    } else {
        dec_text(s[0].0@.len() as int) + seq![58u8] + s[0].0@ + enc(s[0].1) + enc_pairs(
            s.drop_first(),
        )
    }
}

pub proof fn lemma_enc_items_concat(a: Seq<Bencode>, b: Seq<Bencode>)
    ensures
        enc_items(a + b) == enc_items(a) + enc_items(b),
    decreases a.len(),
{
    if a.len() == 0 {
        assert(a + b =~= b);
        assert(enc_items(a) + enc_items(b) =~= enc_items(b));
    } else {
        lemma_enc_items_concat(a.drop_first(), b);
        assert((a + b).drop_first() =~= a.drop_first() + b);
        assert((a + b)[0] == a[0]);
        assert(enc_items(a + b) =~= enc_items(a) + enc_items(b));
    }
}

pub proof fn lemma_enc_items_snoc(s: Seq<Bencode>, v: Bencode)
    ensures
        enc_items(s.push(v)) == enc_items(s) + enc(v),
{
    lemma_enc_items_concat(s, seq![v]);
    assert(s.push(v) =~= s + seq![v]);
    assert(seq![v].drop_first() =~= Seq::<Bencode>::empty());
    assert(enc_items(seq![v]) == enc(seq![v][0]) + enc_items(seq![v].drop_first()));
    assert(enc_items(Seq::<Bencode>::empty()) =~= Seq::<u8>::empty());
    assert(enc_items(seq![v]) =~= enc(v));
    assert(enc_items(s) + enc_items(seq![v]) =~= enc_items(s) + enc(v));
}

pub proof fn lemma_enc_pairs_concat(a: Seq<(Vec<u8>, Bencode)>, b: Seq<(Vec<u8>, Bencode)>)
    ensures
        enc_pairs(a + b) == enc_pairs(a) + enc_pairs(b),
    decreases a.len(),
{
    if a.len() == 0 {
        assert(a + b =~= b);
        assert(enc_pairs(a) + enc_pairs(b) =~= enc_pairs(b));
    } else {
        lemma_enc_pairs_concat(a.drop_first(), b);
        assert((a + b).drop_first() =~= a.drop_first() + b);
        assert((a + b)[0] == a[0]);
        assert(enc_pairs(a + b) =~= enc_pairs(a) + enc_pairs(b));
    }
}

pub proof fn lemma_enc_pairs_snoc(s: Seq<(Vec<u8>, Bencode)>, k: Vec<u8>, v: Bencode)
    ensures
        enc_pairs(s.push((k, v))) == enc_pairs(s) + dec_text(k@.len() as int) + seq![58u8] + k@
            + enc(v),
{
    lemma_enc_pairs_concat(s, seq![(k, v)]);
    assert(s.push((k, v)) =~= s + seq![(k, v)]);
    assert(seq![(k, v)].drop_first() =~= Seq::<(Vec<u8>, Bencode)>::empty());
    assert(enc_pairs(seq![(k, v)]) == dec_text(seq![(k, v)][0].0@.len() as int) + seq![58u8]
        + seq![(k, v)][0].0@ + enc(seq![(k, v)][0].1) + enc_pairs(seq![(k, v)].drop_first()));
    assert(enc_pairs(Seq::<(Vec<u8>, Bencode)>::empty()) =~= Seq::<u8>::empty());
    assert(enc_pairs(seq![(k, v)]) =~= dec_text(k@.len() as int) + seq![58u8] + k@ + enc(v));
    assert(enc_pairs(s) + enc_pairs(seq![(k, v)]) =~= enc_pairs(s) + dec_text(k@.len() as int)
        + seq![58u8] + k@ + enc(v));
}

// ---------------------------------------------------------------------------
// The encoding is self-delimiting: a serialized value followed by arbitrary
// bytes determines where the value ends. These lemmas carry the parser's
// completeness proofs (an error means no value sits at the position) and the
// info-hash determinism law (byte-equal dictionaries bind byte-equal values
// to the same keys).
// ---------------------------------------------------------------------------

/// Every byte of `s` is an ASCII decimal digit.
pub open spec fn all_digit_bytes(s: Seq<u8>) -> bool {
    forall|i: int| 0 <= i < s.len() ==> 48 <= #[trigger] s[i] <= 57
}

pub proof fn lemma_dec_text_digits(n: int)
    ensures
        dec_text(n).len() >= 1,
        all_digit_bytes(dec_text(n)),
        n >= 10 ==> dec_text(n).len() >= 2,
    decreases n,
{
    if n > 9 {
        lemma_dec_text_digits(n / 10);
        let t = dec_text(n / 10);
        let d = seq![(48 + n % 10) as u8];
        assert forall|i: int| 0 <= i < (t + d).len() implies 48 <= #[trigger] (t + d)[i] <= 57 by {
            if i < t.len() {
                assert((t + d)[i] == t[i]);
            } else {
                assert((t + d)[i] == d[i - t.len()]);
            }
        }
    }
}

pub proof fn lemma_dec_text_injective(a: int, b: int)
    requires
        a >= 0,
        b >= 0,
        dec_text(a) == dec_text(b),
    ensures
        a == b,
    decreases a,
{
    lemma_dec_text_digits(a);
    lemma_dec_text_digits(b);
    if a < 10 && b < 10 {
        assert(dec_text(a)[0] == (48 + a) as u8);
        assert(dec_text(b)[0] == (48 + b) as u8);
    } else if a < 10 {
        assert(dec_text(a).len() == 1);
        assert(false);
    } else if b < 10 {
        assert(dec_text(b).len() == 1);
        assert(false);
    } else {
        assert(dec_text(a) == dec_text(a / 10) + seq![(48 + a % 10) as u8]);
        assert(dec_text(b) == dec_text(b / 10) + seq![(48 + b % 10) as u8]);
        assert(dec_text(a).last() == (48 + a % 10) as u8);
        assert(dec_text(b).last() == (48 + b % 10) as u8);
        assert(a % 10 == b % 10);
        assert(dec_text(a).drop_last() =~= dec_text(a / 10));
        assert(dec_text(b).drop_last() =~= dec_text(b / 10));
        lemma_dec_text_injective(a / 10, b / 10);
    }
}

/// The number a digit string spells, most significant digit first.
pub open spec fn digits_val(s: Seq<u8>) -> int
    decreases s.len(),
{
    if s.len() == 0 {
        0
    } else {
        digits_val(s.drop_last()) * 10 + (s.last() - 48)
    }
}

pub proof fn lemma_digits_val_of_dec_text(n: int)
    requires
        n >= 0,
    ensures
        digits_val(dec_text(n)) == n,
    decreases n,
{
    if n < 10 {
        assert(dec_text(n).drop_last() =~= Seq::<u8>::empty());
        assert(digits_val(Seq::<u8>::empty()) == 0);
        assert(dec_text(n).last() == (48 + n) as u8);
    } else {
        lemma_digits_val_of_dec_text(n / 10);
        assert(dec_text(n).drop_last() =~= dec_text(n / 10));
        assert(dec_text(n).last() == (48 + n % 10) as u8);
    }
}

pub proof fn lemma_digits_val_nonneg(s: Seq<u8>)
    requires
        all_digit_bytes(s),
    ensures
        digits_val(s) >= 0,
    decreases s.len(),
{
    if s.len() > 0 {
        assert(all_digit_bytes(s.drop_last()));
        lemma_digits_val_nonneg(s.drop_last());
    }
}

/// A digit string spells at least what any of its prefixes spells.
pub proof fn lemma_digits_val_prefix(s: Seq<u8>, k: int)
    requires
        all_digit_bytes(s),
        0 <= k <= s.len(),
    ensures
        digits_val(s.take(k)) <= digits_val(s),
    decreases s.len() - k,
{
    if k < s.len() {
        assert(all_digit_bytes(s.drop_last()));
        assert(s.drop_last().take(k) =~= s.take(k));
        lemma_digits_val_prefix(s.drop_last(), k);
        lemma_digits_val_nonneg(s.drop_last());
        assert(digits_val(s) >= digits_val(s.drop_last()));
    } else {
        assert(s.take(k) =~= s);
    }
}

/// A positive number's decimal text never starts with '0'.
pub proof fn lemma_dec_text_first_nonzero(m: int)
    requires
        m >= 1,
    ensures
        dec_text(m)[0] != 48,
    decreases m,
{
    if m >= 10 {
        lemma_dec_text_first_nonzero(m / 10);
        lemma_dec_text_digits(m / 10);
        assert(dec_text(m)[0] == dec_text(m / 10)[0]);
    }
}

/// Whether position `e` delimits a digit run: the buffer ends there or a
/// non-digit byte stands there.
pub open spec fn digit_boundary(s: Seq<u8>, e: int) -> bool {
    e == s.len() || !(48 <= s[e] <= 57)
}

/// Two decimal texts read from the same position, each ending at a digit
/// boundary (or being the single canonical '0'), are the same number ending
/// at the same place.
pub proof fn lemma_dec_text_unique(s: Seq<u8>, pos: int, m1: int, e1: int, m2: int, e2: int)
    requires
        0 <= pos,
        pos <= e1 <= s.len(),
        pos <= e2 <= s.len(),
        m1 >= 0,
        m2 >= 0,
        dec_text(m1) == s.subrange(pos, e1),
        dec_text(m2) == s.subrange(pos, e2),
        digit_boundary(s, e1) || (m1 == 0 && e1 == pos + 1),
        digit_boundary(s, e2) || (m2 == 0 && e2 == pos + 1),
    ensures
        m1 == m2,
        e1 == e2,
{
    lemma_dec_text_digits(m1);
    lemma_dec_text_digits(m2);
    if e1 < e2 {
        assert(s[e1] == dec_text(m2)[e1 - pos]);
        assert(48 <= s[e1] <= 57);
        assert(m1 == 0 && e1 == pos + 1);
        assert(s[pos] == dec_text(m1)[0]);
        assert(dec_text(m2)[0] == 48);
        if m2 >= 1 {
            lemma_dec_text_first_nonzero(m2);
        }
        assert(m2 == 0);
        assert(false);
    } else if e2 < e1 {
        assert(s[e2] == dec_text(m1)[e2 - pos]);
        assert(48 <= s[e2] <= 57);
        assert(m2 == 0 && e2 == pos + 1);
        assert(s[pos] == dec_text(m2)[0]);
        assert(dec_text(m1)[0] == 48);
        if m1 >= 1 {
            lemma_dec_text_first_nonzero(m1);
        }
        assert(m1 == 0);
        assert(false);
    } else {
        lemma_dec_text_injective(m1, m2);
    }
}

/// Two byte-string forms read from the same position are the same bytes
/// ending at the same place.
pub proof fn lemma_bytes_form_unique(s: Seq<u8>, pos: int, b1: Seq<u8>, e1: int, b2: Seq<u8>, e2: int)
    requires
        0 <= pos,
        pos <= e1 <= s.len(),
        pos <= e2 <= s.len(),
        dec_text(b1.len() as int) + seq![58u8] + b1 == s.subrange(pos, e1),
        dec_text(b2.len() as int) + seq![58u8] + b2 == s.subrange(pos, e2),
    ensures
        b1 == b2,
        e1 == e2,
{
    let t1 = dec_text(b1.len() as int);
    let t2 = dec_text(b2.len() as int);
    lemma_dec_text_digits(b1.len() as int);
    lemma_dec_text_digits(b2.len() as int);
    let whole1 = s.subrange(pos, e1);
    let whole2 = s.subrange(pos, e2);
    assert(whole1.len() == t1.len() + 1 + b1.len());
    assert(whole2.len() == t2.len() + 1 + b2.len());
    assert(t1 =~= s.subrange(pos, pos + t1.len() as int)) by {
        assert forall|i: int| 0 <= i < t1.len() implies t1[i] == s.subrange(
            pos,
            pos + t1.len() as int,
        )[i] by {
            assert(whole1[i] == t1[i]);
            assert(whole1[i] == s[pos + i]);
        }
    }
    assert(t2 =~= s.subrange(pos, pos + t2.len() as int)) by {
        assert forall|i: int| 0 <= i < t2.len() implies t2[i] == s.subrange(
            pos,
            pos + t2.len() as int,
        )[i] by {
            assert(whole2[i] == t2[i]);
            assert(whole2[i] == s[pos + i]);
        }
    }
    assert(s[pos + t1.len()] == 58) by {
        assert(whole1[t1.len() as int] == 58);
        assert(whole1[t1.len() as int] == s[pos + t1.len()]);
    }
    assert(s[pos + t2.len()] == 58) by {
        assert(whole2[t2.len() as int] == 58);
        assert(whole2[t2.len() as int] == s[pos + t2.len()]);
    }
    lemma_dec_text_unique(
        s,
        pos,
        b1.len() as int,
        pos + t1.len() as int,
        b2.len() as int,
        pos + t2.len() as int,
    );
    assert(e1 == pos + t1.len() + 1 + b1.len());
    assert(e2 == pos + t2.len() + 1 + b2.len());
    assert(b1 =~= b2) by {
        assert forall|i: int| 0 <= i < b1.len() implies b1[i] == b2[i] by {
            assert(b1[i] == s.subrange(pos, e1)[t1.len() + 1 + i]);
            assert(b2[i] == s.subrange(pos, e2)[t2.len() + 1 + i]);
        }
    }
}

/// Stripping a shared prefix of a sequence equality.
pub proof fn lemma_concat_cancel_left(a: Seq<u8>, x: Seq<u8>, y: Seq<u8>)
    requires
        a + x == a + y,
    ensures
        x == y,
{
    assert(x =~= (a + x).skip(a.len() as int));
    assert(y =~= (a + y).skip(a.len() as int));
}

/// A digit run followed by a non-digit separator is read unambiguously.
pub proof fn lemma_digits_sep(t1: Seq<u8>, r1: Seq<u8>, t2: Seq<u8>, r2: Seq<u8>, sep: u8)
    requires
        all_digit_bytes(t1),
        all_digit_bytes(t2),
        !(48 <= sep <= 57),
        t1 + seq![sep] + r1 == t2 + seq![sep] + r2,
    ensures
        t1 == t2,
        r1 == r2,
{
    let s1 = t1 + seq![sep] + r1;
    let s2 = t2 + seq![sep] + r2;
    if t1.len() < t2.len() {
        assert(s1[t1.len() as int] == sep);
        assert(s2[t1.len() as int] == t2[t1.len() as int]);
        assert(false);
    } else if t2.len() < t1.len() {
        assert(s2[t2.len() as int] == sep);
        assert(s1[t2.len() as int] == t1[t2.len() as int]);
        assert(false);
    } else {
        assert(t1 =~= t2) by {
            assert forall|i: int| 0 <= i < t1.len() implies t1[i] == t2[i] by {
                assert(s1[i] == t1[i]);
                assert(s2[i] == t2[i]);
            }
        }
        assert(s1.len() == s2.len());
        assert(r1.len() == r2.len());
        assert(r1 =~= r2) by {
            assert forall|i: int| 0 <= i < r1.len() implies r1[i] == r2[i] by {
                assert(s1[t1.len() + 1 + i] == r1[i]);
                assert(s2[t2.len() + 1 + i] == r2[i]);
            }
        }
    }
}

/// The first byte of a serialized value names its form: 'i' an integer, a
/// digit a byte string, 'l' a list, 'd' a dictionary.
pub proof fn lemma_enc_first(v: Bencode)
    ensures
        enc(v).len() >= 1,
        v is Int ==> enc(v)[0] == 105,
        v is Bytes ==> 48 <= enc(v)[0] <= 57,
        v is List ==> enc(v)[0] == 108,
        v is Dict ==> enc(v)[0] == 100,
{
    match v {
        Bencode::Bytes(b) => {
            lemma_dec_text_digits(b@.len() as int);
            let t = dec_text(b@.len() as int);
            assert(enc(v)[0] == (t + seq![58u8] + b@)[0]);
            assert((t + seq![58u8] + b@)[0] == t[0]);
        },
        _ => {},
    }
}

/// Law: the encoding is prefix-free — when two serialized values start the
/// same byte stream, they end at the same place.
pub proof fn lemma_enc_prefix_free(v1: Bencode, v2: Bencode, r1: Seq<u8>, r2: Seq<u8>)
    requires
        enc(v1) + r1 == enc(v2) + r2,
    ensures
        r1 == r2,
        enc(v1) == enc(v2),
    decreases v1,
{
    lemma_enc_first(v1);
    lemma_enc_first(v2);
    assert((enc(v1) + r1)[0] == enc(v1)[0]);
    assert((enc(v2) + r2)[0] == enc(v2)[0]);
    match (v1, v2) {
        (Bencode::Int(n1), Bencode::Int(n2)) => {
            let x1 = int_text(n1 as int) + seq![101u8] + r1;
            let x2 = int_text(n2 as int) + seq![101u8] + r2;
            assert(enc(v1) + r1 =~= seq![105u8] + x1);
            assert(enc(v2) + r2 =~= seq![105u8] + x2);
            lemma_concat_cancel_left(seq![105u8], x1, x2);
            lemma_dec_text_digits(if n1 < 0 { -(n1 as int) } else { n1 as int });
            lemma_dec_text_digits(if n2 < 0 { -(n2 as int) } else { n2 as int });
            if n1 < 0 && n2 < 0 {
                let y1 = dec_text(-(n1 as int)) + seq![101u8] + r1;
                let y2 = dec_text(-(n2 as int)) + seq![101u8] + r2;
                assert(x1 =~= seq![45u8] + y1);
                assert(x2 =~= seq![45u8] + y2);
                lemma_concat_cancel_left(seq![45u8], y1, y2);
                lemma_digits_sep(dec_text(-(n1 as int)), r1, dec_text(-(n2 as int)), r2, 101);
            } else if n1 >= 0 && n2 >= 0 {
                assert(x1 =~= dec_text(n1 as int) + seq![101u8] + r1);
                assert(x2 =~= dec_text(n2 as int) + seq![101u8] + r2);
                lemma_digits_sep(dec_text(n1 as int), r1, dec_text(n2 as int), r2, 101);
            } else if n1 < 0 {
                assert(x1[0] == 45);
                assert(x2[0] == dec_text(n2 as int)[0]);
                assert(false);
            } else {
                assert(x2[0] == 45);
                assert(x1[0] == dec_text(n1 as int)[0]);
                assert(false);
            }
        },
        (Bencode::Bytes(b1), Bencode::Bytes(b2)) => {
            lemma_dec_text_digits(b1@.len() as int);
            lemma_dec_text_digits(b2@.len() as int);
            assert(enc(v1) + r1 =~= dec_text(b1@.len() as int) + seq![58u8] + (b1@ + r1));
            assert(enc(v2) + r2 =~= dec_text(b2@.len() as int) + seq![58u8] + (b2@ + r2));
            lemma_digits_sep(
                dec_text(b1@.len() as int),
                b1@ + r1,
                dec_text(b2@.len() as int),
                b2@ + r2,
                58,
            );
            lemma_dec_text_injective(b1@.len() as int, b2@.len() as int);
            assert(r1 =~= (b1@ + r1).skip(b1@.len() as int));
            assert(r2 =~= (b2@ + r2).skip(b2@.len() as int));
        },
        (Bencode::List(items1), Bencode::List(items2)) => {
            let x1 = enc_items(items1@) + seq![101u8] + r1;
            let x2 = enc_items(items2@) + seq![101u8] + r2;
            assert(enc(v1) + r1 =~= seq![108u8] + x1);
            assert(enc(v2) + r2 =~= seq![108u8] + x2);
            lemma_concat_cancel_left(seq![108u8], x1, x2);
            assert(decreases_to!(v1 => v1->List_0));
            assert(v1->List_0 == items1);
            assert(decreases_to!(items1 => items1@));
            lemma_enc_items_prefix_free(items1@, items2@, r1, r2);
        },
        (Bencode::Dict(pairs1), Bencode::Dict(pairs2)) => {
            let x1 = enc_pairs(pairs1@) + seq![101u8] + r1;
            let x2 = enc_pairs(pairs2@) + seq![101u8] + r2;
            assert(enc(v1) + r1 =~= seq![100u8] + x1);
            assert(enc(v2) + r2 =~= seq![100u8] + x2);
            lemma_concat_cancel_left(seq![100u8], x1, x2);
            assert(decreases_to!(v1 => v1->Dict_0));
            assert(v1->Dict_0 == pairs1);
            assert(decreases_to!(pairs1 => pairs1@));
            lemma_enc_pairs_prefix_free(pairs1@, pairs2@, r1, r2);
        },
        _ => {
            assert(false);
        },
    }
    assert(enc(v1) =~= (enc(v1) + r1).take(enc(v1).len() as int));
    assert(enc(v2) =~= (enc(v2) + r2).take(enc(v2).len() as int));
}

pub proof fn lemma_enc_items_prefix_free(l1: Seq<Bencode>, l2: Seq<Bencode>, r1: Seq<u8>, r2: Seq<
    u8,
>)
    requires
        enc_items(l1) + seq![101u8] + r1 == enc_items(l2) + seq![101u8] + r2,
    ensures
        r1 == r2,
        l1.len() == l2.len(),
        forall|i: int| 0 <= i < l1.len() ==> enc(#[trigger] l1[i]) == enc(l2[i]),
    decreases l1,
{
    let s1 = enc_items(l1) + seq![101u8] + r1;
    let s2 = enc_items(l2) + seq![101u8] + r2;
    if l1.len() == 0 && l2.len() == 0 {
        assert(s1 =~= seq![101u8] + r1);
        assert(s2 =~= seq![101u8] + r2);
        lemma_concat_cancel_left(seq![101u8], r1, r2);
    } else if l1.len() == 0 {
        lemma_enc_first(l2[0]);
        assert(s1[0] == 101);
        assert(s2[0] == (enc(l2[0]) + enc_items(l2.drop_first()))[0]);
        assert(s2[0] == enc(l2[0])[0]);
        assert(false);
    } else if l2.len() == 0 {
        lemma_enc_first(l1[0]);
        assert(s2[0] == 101);
        assert(s1[0] == (enc(l1[0]) + enc_items(l1.drop_first()))[0]);
        assert(s1[0] == enc(l1[0])[0]);
        assert(false);
    } else {
        let y1 = enc_items(l1.drop_first()) + seq![101u8] + r1;
        let y2 = enc_items(l2.drop_first()) + seq![101u8] + r2;
        assert(s1 =~= enc(l1[0]) + y1);
        assert(s2 =~= enc(l2[0]) + y2);
        lemma_enc_prefix_free(l1[0], l2[0], y1, y2);
        lemma_enc_items_prefix_free(l1.drop_first(), l2.drop_first(), r1, r2);
        assert forall|i: int| 0 <= i < l1.len() implies enc(#[trigger] l1[i]) == enc(l2[i]) by {
            if i > 0 {
                assert(l1.drop_first()[i - 1] == l1[i]);
                assert(l2.drop_first()[i - 1] == l2[i]);
            }
        }
    }
}

/// Law: byte-equal dictionary bodies bind, entry by entry, the same keys to
/// values with the same canonical bytes.
pub proof fn lemma_enc_pairs_prefix_free(
    l1: Seq<(Vec<u8>, Bencode)>,
    l2: Seq<(Vec<u8>, Bencode)>,
    r1: Seq<u8>,
    r2: Seq<u8>,
)
    requires
        enc_pairs(l1) + seq![101u8] + r1 == enc_pairs(l2) + seq![101u8] + r2,
    ensures
        r1 == r2,
        l1.len() == l2.len(),
        forall|i: int|
            0 <= i < l1.len() ==> (#[trigger] l1[i]).0@ == l2[i].0@ && enc(l1[i].1) == enc(
                l2[i].1,
            ),
    decreases l1,
{
    let s1 = enc_pairs(l1) + seq![101u8] + r1;
    let s2 = enc_pairs(l2) + seq![101u8] + r2;
    if l1.len() == 0 && l2.len() == 0 {
        assert(s1 =~= seq![101u8] + r1);
        assert(s2 =~= seq![101u8] + r2);
        lemma_concat_cancel_left(seq![101u8], r1, r2);
    } else if l1.len() == 0 {
        lemma_dec_text_digits(l2[0].0@.len() as int);
        assert(s1[0] == 101);
        assert(s2[0] == dec_text(l2[0].0@.len() as int)[0]);
        assert(false);
    } else if l2.len() == 0 {
        lemma_dec_text_digits(l1[0].0@.len() as int);
        assert(s2[0] == 101);
        assert(s1[0] == dec_text(l1[0].0@.len() as int)[0]);
        assert(false);
    } else {
        let k1 = l1[0].0@;
        let k2 = l2[0].0@;
        lemma_dec_text_digits(k1.len() as int);
        lemma_dec_text_digits(k2.len() as int);
        let y1 = enc_pairs(l1.drop_first()) + seq![101u8] + r1;
        let y2 = enc_pairs(l2.drop_first()) + seq![101u8] + r2;
        assert(s1 =~= dec_text(k1.len() as int) + seq![58u8] + (k1 + (enc(l1[0].1) + y1)));
        assert(s2 =~= dec_text(k2.len() as int) + seq![58u8] + (k2 + (enc(l2[0].1) + y2)));
        lemma_digits_sep(
            dec_text(k1.len() as int),
            k1 + (enc(l1[0].1) + y1),
            dec_text(k2.len() as int),
            k2 + (enc(l2[0].1) + y2),
            58,
        );
        lemma_dec_text_injective(k1.len() as int, k2.len() as int);
        assert(k1 =~= (k1 + (enc(l1[0].1) + y1)).take(k1.len() as int));
        assert(k2 =~= (k2 + (enc(l2[0].1) + y2)).take(k2.len() as int));
        assert(enc(l1[0].1) + y1 =~= (k1 + (enc(l1[0].1) + y1)).skip(k1.len() as int));
        assert(enc(l2[0].1) + y2 =~= (k2 + (enc(l2[0].1) + y2)).skip(k2.len() as int));
        lemma_enc_prefix_free(l1[0].1, l2[0].1, y1, y2);
        lemma_enc_pairs_prefix_free(l1.drop_first(), l2.drop_first(), r1, r2);
        assert forall|i: int|
            0 <= i < l1.len() implies (#[trigger] l1[i]).0@ == l2[i].0@ && enc(l1[i].1) == enc(
            l2[i].1,
        ) by {
            if i > 0 {
                assert(l1.drop_first()[i - 1] == l1[i]);
                assert(l2.drop_first()[i - 1] == l2[i]);
            }
        }
    }
}

/// Law: the encoding determines the value's form and, form by form, its
/// visible content — equal canonical bytes mean an equal integer, equal byte
/// strings, or pointwise byte-equal children.
pub proof fn lemma_enc_inv(v1: Bencode, v2: Bencode)
    requires
        enc(v1) == enc(v2),
    ensures
        v1 is Int ==> v1 == v2,
        v1 matches Bencode::Bytes(b1) ==> (v2 matches Bencode::Bytes(b2) && b1@ == b2@),
        v1 matches Bencode::List(l1) ==> (v2 matches Bencode::List(l2) && l1@.len() == l2@.len()
            && (forall|i: int| 0 <= i < l1@.len() ==> enc(#[trigger] l1@[i]) == enc(l2@[i]))),
        v1 matches Bencode::Dict(p1) ==> (v2 matches Bencode::Dict(p2) && p1@.len() == p2@.len()
            && (forall|i: int|
            0 <= i < p1@.len() ==> (#[trigger] p1@[i]).0@ == p2@[i].0@ && enc(p1@[i].1) == enc(
                p2@[i].1,
            ))),
{
    lemma_enc_first(v1);
    lemma_enc_first(v2);
    assert(enc(v1)[0] == enc(v2)[0]);
    match (v1, v2) {
        (Bencode::Int(n1), Bencode::Int(n2)) => {
            let x1 = int_text(n1 as int) + seq![101u8] + Seq::<u8>::empty();
            let x2 = int_text(n2 as int) + seq![101u8] + Seq::<u8>::empty();
            assert(enc(v1) =~= seq![105u8] + x1);
            assert(enc(v2) =~= seq![105u8] + x2);
            lemma_concat_cancel_left(seq![105u8], x1, x2);
            lemma_dec_text_digits(if n1 < 0 { -(n1 as int) } else { n1 as int });
            lemma_dec_text_digits(if n2 < 0 { -(n2 as int) } else { n2 as int });
            if n1 < 0 && n2 < 0 {
                let y1 = dec_text(-(n1 as int)) + seq![101u8] + Seq::<u8>::empty();
                let y2 = dec_text(-(n2 as int)) + seq![101u8] + Seq::<u8>::empty();
                assert(x1 =~= seq![45u8] + y1);
                assert(x2 =~= seq![45u8] + y2);
                lemma_concat_cancel_left(seq![45u8], y1, y2);
                lemma_digits_sep(
                    dec_text(-(n1 as int)),
                    Seq::<u8>::empty(),
                    dec_text(-(n2 as int)),
                    Seq::<u8>::empty(),
                    101,
                );
                lemma_dec_text_injective(-(n1 as int), -(n2 as int));
            } else if n1 >= 0 && n2 >= 0 {
                assert(x1 =~= dec_text(n1 as int) + seq![101u8] + Seq::<u8>::empty());
                assert(x2 =~= dec_text(n2 as int) + seq![101u8] + Seq::<u8>::empty());
                lemma_digits_sep(
                    dec_text(n1 as int),
                    Seq::<u8>::empty(),
                    dec_text(n2 as int),
                    Seq::<u8>::empty(),
                    101,
                );
                lemma_dec_text_injective(n1 as int, n2 as int);
            } else if n1 < 0 {
                assert(x1[0] == 45);
                assert(x2[0] == dec_text(n2 as int)[0]);
                assert(false);
            } else {
                assert(x2[0] == 45);
                assert(x1[0] == dec_text(n1 as int)[0]);
                assert(false);
            }
        },
        (Bencode::Bytes(b1), Bencode::Bytes(b2)) => {
            lemma_dec_text_digits(b1@.len() as int);
            lemma_dec_text_digits(b2@.len() as int);
            assert(enc(v1) =~= dec_text(b1@.len() as int) + seq![58u8] + b1@);
            assert(enc(v2) =~= dec_text(b2@.len() as int) + seq![58u8] + b2@);
            lemma_digits_sep(dec_text(b1@.len() as int), b1@, dec_text(b2@.len() as int), b2@, 58);
        },
        (Bencode::List(l1), Bencode::List(l2)) => {
            let x1 = enc_items(l1@) + seq![101u8] + Seq::<u8>::empty();
            let x2 = enc_items(l2@) + seq![101u8] + Seq::<u8>::empty();
            assert(enc(v1) =~= seq![108u8] + x1);
            assert(enc(v2) =~= seq![108u8] + x2);
            lemma_concat_cancel_left(seq![108u8], x1, x2);
            lemma_enc_items_prefix_free(l1@, l2@, Seq::<u8>::empty(), Seq::<u8>::empty());
        },
        (Bencode::Dict(p1), Bencode::Dict(p2)) => {
            let x1 = enc_pairs(p1@) + seq![101u8] + Seq::<u8>::empty();
            let x2 = enc_pairs(p2@) + seq![101u8] + Seq::<u8>::empty();
            assert(enc(v1) =~= seq![100u8] + x1);
            assert(enc(v2) =~= seq![100u8] + x2);
            lemma_concat_cancel_left(seq![100u8], x1, x2);
            lemma_enc_pairs_prefix_free(p1@, p2@, Seq::<u8>::empty(), Seq::<u8>::empty());
        },
        _ => {
            assert(false);
        },
    }
}

/// A malformed or non-canonical bencode input.
#[derive(Debug, PartialEq, Eq, Structural, Clone, Copy)]
pub struct BencodeError;

/// Scans the canonical decimal number at `pos`: a single '0', or a nonzero
/// digit followed by any further digits. What was consumed is exactly the
/// decimal text of the value, so leading zeros never parse. Numbers over
/// `u64::MAX` are rejected; on an error, no number's decimal text lies at
/// `pos` ending at a digit boundary.
pub fn parse_digits(buf: &Vec<u8>, pos: usize) -> (r: Result<(u64, usize), BencodeError>)
    requires
        pos <= buf.len(),
    ensures
        r matches Ok((n, end)) ==> pos < end <= buf@.len() && dec_text(n as int)
            == buf@.subrange(pos as int, end as int) && (digit_boundary(buf@, end as int) || (n
            == 0 && end == pos + 1)),
        r is Err ==> forall|n: u64, e: int|
            pos <= e <= buf@.len() && digit_boundary(buf@, e) ==> dec_text(n as int)
                != buf@.subrange(pos as int, e),
{
    if pos == buf.len() {
        proof {
            assert forall|n: u64, e: int|
                pos <= e <= buf@.len() && digit_boundary(buf@, e) implies dec_text(n as int)
                != buf@.subrange(pos as int, e) by {
                lemma_dec_text_digits(n as int);
            }
        }
        return Err(BencodeError);
    }
    let c0 = buf[pos];
    if c0 < 48 || c0 > 57 {
        proof {
            assert forall|n: u64, e: int|
                pos <= e <= buf@.len() && digit_boundary(buf@, e) implies dec_text(n as int)
                != buf@.subrange(pos as int, e) by {
                lemma_dec_text_digits(n as int);
                if dec_text(n as int) == buf@.subrange(pos as int, e) {
                    assert(buf@[pos as int] == dec_text(n as int)[0]);
                    assert(false);
                }
            }
        }
        return Err(BencodeError);
    }
    if c0 == 48 {
        proof {
            assert(dec_text(0int) =~= buf@.subrange(pos as int, pos + 1));
        }
        return Ok((0, pos + 1));
    }
    let mut acc: u64 = (c0 - 48) as u64;
    let mut p: usize = pos + 1;
    proof {
        assert(dec_text(acc as int) =~= buf@.subrange(pos as int, p as int));
    }
    while p < buf.len() && 48 <= buf[p] && buf[p] <= 57
        invariant
            pos < p <= buf.len(),
            1 <= acc,
            dec_text(acc as int) == buf@.subrange(pos as int, p as int),
        decreases buf@.len() - p,
    {
        let d = buf[p] - 48;
        let headroom = (u64::MAX - (d as u64)) / 10;
        if acc > headroom {
            proof {
                // any number whose text sits here must spell, in its first
                // p + 1 - pos digits, a value already over u64::MAX
                assert forall|n: u64, e: int|
                    pos <= e <= buf@.len() && digit_boundary(buf@, e) implies dec_text(n as int)
                    != buf@.subrange(pos as int, e) by {
                    if dec_text(n as int) == buf@.subrange(pos as int, e) {
                        lemma_dec_text_digits(n as int);
                        lemma_dec_text_digits(acc as int);
                        if e <= p as int {
                            if e < p as int {
                                assert(buf@[e] == dec_text(acc as int)[e - pos]);
                            }
                            assert(48 <= buf@[e] <= 57);
                            assert(e < buf@.len());
                            assert(false);
                        }
                        let t = dec_text(n as int);
                        assert(t.len() == e - pos);
                        let k = p + 1 - pos;
                        let prefix = t.take(k as int);
                        assert(prefix =~= dec_text(acc as int) + seq![buf@[p as int]]) by {
                            assert forall|i: int| 0 <= i < k implies prefix[i] == (dec_text(
                                acc as int,
                            ) + seq![buf@[p as int]])[i] by {
                                assert(prefix[i] == t[i]);
                                assert(t[i] == buf@.subrange(pos as int, e)[i]);
                                assert(t[i] == buf@[pos + i]);
                                if i < p - pos {
                                    assert(dec_text(acc as int)[i] == buf@.subrange(
                                        pos as int,
                                        p as int,
                                    )[i]);
                                }
                            }
                        }
                        lemma_digits_val_of_dec_text(n as int);
                        lemma_digits_val_prefix(t, k as int);
                        assert(prefix.drop_last() =~= dec_text(acc as int));
                        assert(prefix.last() == buf@[p as int]);
                        lemma_digits_val_of_dec_text(acc as int);
                        assert(digits_val(prefix) == (acc as int) * 10 + d);
                        let q = ((u64::MAX - d as u64) / 10) as int;
                        assert((u64::MAX - d as u64) as int == 10 * q + ((u64::MAX - d as u64) as int
                            % 10));
                        assert((acc as int) * 10 + d > u64::MAX);
                        assert(n as int >= digits_val(prefix));
                        assert(false);
                    }
                }
            }
            return Err(BencodeError);
        }
        proof {
            assert(10 * ((u64::MAX - d as u64) / 10) <= u64::MAX - d as u64) by (nonlinear_arith);
        }
        let ghost acc0 = acc as int;
        acc = acc * 10 + (d as u64);
        p = p + 1;
        proof {
            assert((acc0 * 10 + d) / 10 == acc0 && (acc0 * 10 + d) % 10 == d as int)
                by (nonlinear_arith)
                requires
                    1 <= acc0,
                    0 <= d < 10,
            ;
            assert(dec_text(acc as int) == dec_text(acc0) + seq![(48 + d) as u8]);
            assert(dec_text(acc as int) =~= buf@.subrange(pos as int, p as int));
        }
    }
    Ok((acc, p))
}

/// Whether some value's serialization occupies `s[pos..end]`.
pub open spec fn value_at(s: Seq<u8>, pos: int, v: Bencode, end: int) -> bool {
    pos <= end <= s.len() && enc(v) == s.subrange(pos, end)
}

/// What an integer value occupying `s[pos..e]` looks like: 'i', an optional
/// '-', the magnitude's canonical digits, 'e'.
pub proof fn lemma_int_value_shape(s: Seq<u8>, pos: int, v: Bencode, e: int)
    requires
        value_at(s, pos, v, e),
        0 <= pos < s.len(),
        s[pos] == 105,
    ensures
        v matches Bencode::Int(n) && pos + 3 <= e && s[e - 1] == 101 && (if n < 0 {
            &&& pos + 2 < e
            &&& s[pos + 1] == 45
            &&& 1 <= -(n as int) <= 0x8000_0000_0000_0000
            &&& dec_text(-(n as int)) == s.subrange(pos + 2, e - 1)
        } else {
            &&& 48 <= s[pos + 1] <= 57
            &&& n as int <= 0x7fff_ffff_ffff_ffff
            &&& dec_text(n as int) == s.subrange(pos + 1, e - 1)
        }),
{
    lemma_enc_first(v);
    let whole = s.subrange(pos, e);
    assert(enc(v)[0] == whole[0]);
    assert(whole[0] == s[pos]);
    match v {
        Bencode::Int(n) => {
            let t = int_text(n as int);
            assert(whole.len() == 2 + t.len());
            assert(whole[whole.len() - 1] == 101);
            assert(s[e - 1] == whole[e - 1 - pos]);
            if n < 0 {
                lemma_dec_text_digits(-(n as int));
                assert(t == seq![45u8] + dec_text(-(n as int)));
                assert(whole[1] == t[0]);
                assert(s[pos + 1] == whole[1]);
                assert(dec_text(-(n as int)) =~= s.subrange(pos + 2, e - 1)) by {
                    assert forall|i: int|
                        0 <= i < dec_text(-(n as int)).len() implies #[trigger] dec_text(-(n as int))[i]
                        == s.subrange(pos + 2, e - 1)[i] by {
                        assert(whole[2 + i] == t[1 + i]);
                        assert(t[1 + i] == dec_text(-(n as int))[i]);
                        assert(whole[2 + i] == s[pos + 2 + i]);
                    }
                }
            } else {
                lemma_dec_text_digits(n as int);
                assert(t == dec_text(n as int));
                assert(whole[1] == t[0]);
                assert(s[pos + 1] == whole[1]);
                assert(dec_text(n as int) =~= s.subrange(pos + 1, e - 1)) by {
                    assert forall|i: int|
                        0 <= i < dec_text(n as int).len() implies #[trigger] dec_text(n as int)[i]
                        == s.subrange(pos + 1, e - 1)[i] by {
                        assert(whole[1 + i] == t[i]);
                        assert(whole[1 + i] == s[pos + 1 + i]);
                    }
                }
            }
        },
        _ => {
            assert(false);
        },
    }
}

/// A value starting with a digit is a byte string in its `<len>:<bytes>`
/// form.
pub proof fn lemma_bytes_value_shape(s: Seq<u8>, pos: int, v: Bencode, e: int)
    requires
        value_at(s, pos, v, e),
        0 <= pos < s.len(),
        48 <= s[pos] <= 57,
    ensures
        v matches Bencode::Bytes(b) && dec_text(b@.len() as int) + seq![58u8] + b@ == s.subrange(
            pos,
            e,
        ),
{
    lemma_enc_first(v);
    assert(enc(v)[0] == s.subrange(pos, e)[0]);
    assert(s.subrange(pos, e)[0] == s[pos]);
    match v {
        Bencode::Bytes(b) => {},
        _ => {
            assert(false);
        },
    }
}

/// A value starting with 'l' is a list: its items and the closing 'e' follow.
pub proof fn lemma_list_value_shape(s: Seq<u8>, pos: int, v: Bencode, e: int)
    requires
        value_at(s, pos, v, e),
        0 <= pos < s.len(),
        s[pos] == 108,
    ensures
        v matches Bencode::List(items) && pos + 2 <= e && enc_items(items@) + seq![101u8]
            == s.subrange(pos + 1, e),
{
    lemma_enc_first(v);
    let whole = s.subrange(pos, e);
    assert(enc(v)[0] == whole[0]);
    assert(whole[0] == s[pos]);
    match v {
        Bencode::List(items) => {
            assert(whole.len() == 2 + enc_items(items@).len());
            assert(enc_items(items@) + seq![101u8] =~= s.subrange(pos + 1, e)) by {
                assert forall|i: int|
                    0 <= i < (enc_items(items@) + seq![101u8]).len() implies #[trigger] (enc_items(
                    items@,
                ) + seq![101u8])[i] == s.subrange(pos + 1, e)[i] by {
                    assert(whole[1 + i] == (seq![108u8] + enc_items(items@) + seq![101u8])[1 + i]);
                    assert(whole[1 + i] == s[pos + 1 + i]);
                }
            }
        },
        _ => {
            assert(false);
        },
    }
}

/// A value starting with 'd' is a dictionary: its pairs and the closing 'e'
/// follow.
pub proof fn lemma_dict_value_shape(s: Seq<u8>, pos: int, v: Bencode, e: int)
    requires
        value_at(s, pos, v, e),
        0 <= pos < s.len(),
        s[pos] == 100,
    ensures
        v matches Bencode::Dict(pairs) && pos + 2 <= e && enc_pairs(pairs@) + seq![101u8]
            == s.subrange(pos + 1, e),
{
    lemma_enc_first(v);
    let whole = s.subrange(pos, e);
    assert(enc(v)[0] == whole[0]);
    assert(whole[0] == s[pos]);
    match v {
        Bencode::Dict(pairs) => {
            assert(whole.len() == 2 + enc_pairs(pairs@).len());
            assert(enc_pairs(pairs@) + seq![101u8] =~= s.subrange(pos + 1, e)) by {
                assert forall|i: int|
                    0 <= i < (enc_pairs(pairs@) + seq![101u8]).len() implies #[trigger] (enc_pairs(
                    pairs@,
                ) + seq![101u8])[i] == s.subrange(pos + 1, e)[i] by {
                    assert(whole[1 + i] == (seq![100u8] + enc_pairs(pairs@) + seq![101u8])[1 + i]);
                    assert(whole[1 + i] == s[pos + 1 + i]);
                }
            }
        },
        _ => {
            assert(false);
        },
    }
}

/// Where the pieces of a byte-string form lie, when one sits at `pos`.
pub proof fn lemma_hyp_bytes_run(s: Seq<u8>, pos: int, b: Seq<u8>, e: int)
    requires
        0 <= pos <= e <= s.len(),
        s.len() <= usize::MAX,
        dec_text(b.len() as int) + seq![58u8] + b == s.subrange(pos, e),
    ensures
        ({
            let tl = dec_text(b.len() as int).len() as int;
            &&& e - pos == tl + 1 + b.len()
            &&& b.len() <= usize::MAX
            &&& dec_text(b.len() as int) == s.subrange(pos, pos + tl)
            &&& pos + tl < e
            &&& s[pos + tl] == 58
            &&& digit_boundary(s, pos + tl)
        }),
{
    let t = dec_text(b.len() as int);
    lemma_dec_text_digits(b.len() as int);
    let whole = s.subrange(pos, e);
    assert(whole.len() == t.len() + 1 + b.len());
    assert(t =~= s.subrange(pos, pos + t.len() as int)) by {
        assert forall|i: int| 0 <= i < t.len() implies t[i] == s.subrange(
            pos,
            pos + t.len() as int,
        )[i] by {
            assert(whole[i] == t[i]);
            assert(whole[i] == s[pos + i]);
        }
    }
    assert(s[pos + t.len()] == 58) by {
        assert(whole[t.len() as int] == 58);
        assert(whole[t.len() as int] == s[pos + t.len()]);
    }
}

/// Parses the byte-string form `<len>:<bytes>` at `pos`. On an error, no
/// byte-string form lies at `pos`.
pub fn parse_bytes_at(buf: &Vec<u8>, pos: usize) -> (r: Result<(Vec<u8>, usize), BencodeError>)
    requires
        pos <= buf.len(),
    ensures
        r matches Ok((b, end)) ==> pos < end <= buf@.len() && dec_text(b@.len() as int)
            + seq![58u8] + b@ == buf@.subrange(pos as int, end as int),
        r is Err ==> forall|b: Seq<u8>, e: int|
            pos <= e <= buf@.len() ==> dec_text(b.len() as int) + seq![58u8] + b != buf@.subrange(
                pos as int,
                e,
            ),
{
    let (len, p) = match parse_digits(buf, pos) {
        Ok(x) => x,
        Err(err) => {
            proof {
                assert forall|b: Seq<u8>, e: int|
                    pos <= e <= buf@.len() implies dec_text(b.len() as int) + seq![58u8] + b
                    != buf@.subrange(pos as int, e) by {
                    if dec_text(b.len() as int) + seq![58u8] + b == buf@.subrange(pos as int, e) {
                        lemma_hyp_bytes_run(buf@, pos as int, b, e);
                        let tl = dec_text(b.len() as int).len() as int;
                        let bl = b.len() as u64;
                        assert(bl as int == b.len() as int);
                        assert(dec_text(bl as int) == buf@.subrange(pos as int, pos + tl));
                        assert(digit_boundary(buf@, pos + tl));
                        assert(false);
                    }
                }
            }
            return Err(err);
        },
    };
    if p == buf.len() || buf[p] != 58 {
        proof {
            assert forall|b: Seq<u8>, e: int|
                pos <= e <= buf@.len() implies dec_text(b.len() as int) + seq![58u8] + b
                != buf@.subrange(pos as int, e) by {
                if dec_text(b.len() as int) + seq![58u8] + b == buf@.subrange(pos as int, e) {
                    lemma_hyp_bytes_run(buf@, pos as int, b, e);
                    let tl = dec_text(b.len() as int).len() as int;
                    lemma_dec_text_unique(
                        buf@,
                        pos as int,
                        len as int,
                        p as int,
                        b.len() as int,
                        pos + tl,
                    );
                    assert(buf@[p as int] == 58);
                    assert(false);
                }
            }
        }
        return Err(BencodeError);
    }
    let after = p + 1;
    if len > ((buf.len() - after) as u64) {
        proof {
            assert forall|b: Seq<u8>, e: int|
                pos <= e <= buf@.len() implies dec_text(b.len() as int) + seq![58u8] + b
                != buf@.subrange(pos as int, e) by {
                if dec_text(b.len() as int) + seq![58u8] + b == buf@.subrange(pos as int, e) {
                    lemma_hyp_bytes_run(buf@, pos as int, b, e);
                    let tl = dec_text(b.len() as int).len() as int;
                    lemma_dec_text_unique(
                        buf@,
                        pos as int,
                        len as int,
                        p as int,
                        b.len() as int,
                        pos + tl,
                    );
                    assert(e - pos == tl + 1 + b.len());
                    assert(false);
                }
            }
        }
        return Err(BencodeError);
    }
    let len_usize = len as usize;
    let end = after + len_usize;
    let content = copy_range(buf, after, end);
    proof {
        assert(buf@.subrange(p as int, after as int) =~= seq![58u8]);
        assert(dec_text(content@.len() as int) + seq![58u8] + content@ =~= buf@.subrange(
            pos as int,
            end as int,
        ));
    }
    Ok((content, end))
}

/// Two values starting at the same position of a buffer end at the same
/// place, with the same bytes.
pub proof fn lemma_value_at_unique_end(
    s: Seq<u8>,
    p: int,
    v1: Bencode,
    e1: int,
    v2: Bencode,
    e2: int,
)
    requires
        0 <= p,
        value_at(s, p, v1, e1),
        value_at(s, p, v2, e2),
    ensures
        e1 == e2,
        enc(v1) == enc(v2),
{
    let suffix = s.subrange(p, s.len() as int);
    assert(enc(v1) + s.subrange(e1, s.len() as int) =~= suffix);
    assert(enc(v2) + s.subrange(e2, s.len() as int) =~= suffix);
    lemma_enc_prefix_free(
        v1,
        v2,
        s.subrange(e1, s.len() as int),
        s.subrange(e2, s.len() as int),
    );
}

/// When a list body (items then 'e') occupies `s[p..e]` and its closing 'e'
/// has not been reached, the first item's serialization starts at `p`.
pub proof fn lemma_items_head(s: Seq<u8>, p: int, e: int, l: Seq<Bencode>)
    requires
        0 <= p <= e <= s.len(),
        enc_items(l) + seq![101u8] == s.subrange(p, e),
        p < s.len(),
        s[p] != 101,
    ensures
        l.len() >= 1,
        p + enc(l[0]).len() < e,
        value_at(s, p, l[0], p + enc(l[0]).len() as int),
        enc_items(l.drop_first()) + seq![101u8] == s.subrange(p + enc(l[0]).len() as int, e),
{
    let whole = s.subrange(p, e);
    if l.len() == 0 {
        assert(enc_items(l) =~= Seq::<u8>::empty());
        assert(whole =~= seq![101u8]);
        assert(whole[0] == s[p]);
        assert(false);
    }
    let head = l[0];
    assert(enc_items(l) == enc(head) + enc_items(l.drop_first()));
    let hl = enc(head).len() as int;
    assert(whole.len() == hl + enc_items(l.drop_first()).len() + 1);
    assert(whole =~= enc(head) + (enc_items(l.drop_first()) + seq![101u8]));
    assert(enc(head) =~= s.subrange(p, p + hl)) by {
        assert forall|i: int| 0 <= i < hl implies #[trigger] enc(head)[i] == s.subrange(
            p,
            p + hl,
        )[i] by {
            assert(whole[i] == enc(head)[i]);
            assert(whole[i] == s[p + i]);
        }
    }
    assert(enc_items(l.drop_first()) + seq![101u8] =~= s.subrange(p + hl, e)) by {
        assert forall|i: int|
            0 <= i < (enc_items(l.drop_first()) + seq![101u8]).len() implies #[trigger] (enc_items(
            l.drop_first(),
        ) + seq![101u8])[i] == s.subrange(p + hl, e)[i] by {
            assert(whole[hl + i] == (enc_items(l.drop_first()) + seq![101u8])[i]);
            assert(whole[hl + i] == s[p + hl + i]);
        }
    }
}

/// When a dictionary body (pairs then 'e') occupies `s[p..e]` and its closing
/// 'e' has not been reached, the first pair's key form starts at `p` and its
/// value follows.
pub proof fn lemma_pairs_head(s: Seq<u8>, p: int, e: int, l: Seq<(Vec<u8>, Bencode)>)
    requires
        0 <= p <= e <= s.len(),
        enc_pairs(l) + seq![101u8] == s.subrange(p, e),
        p < s.len(),
        s[p] != 101,
    ensures
        l.len() >= 1,
        ({
            let kf = dec_text(l[0].0@.len() as int) + seq![58u8] + l[0].0@;
            let kl = kf.len() as int;
            let vl = enc(l[0].1).len() as int;
            &&& p + kl + vl < e
            &&& kf == s.subrange(p, p + kl)
            &&& value_at(s, p + kl, l[0].1, p + kl + vl)
            &&& enc_pairs(l.drop_first()) + seq![101u8] == s.subrange(p + kl + vl, e)
        }),
{
    let whole = s.subrange(p, e);
    if l.len() == 0 {
        assert(enc_pairs(l) =~= Seq::<u8>::empty());
        assert(whole =~= seq![101u8]);
        assert(whole[0] == s[p]);
        assert(false);
    }
    let kf = dec_text(l[0].0@.len() as int) + seq![58u8] + l[0].0@;
    let kl = kf.len() as int;
    let vl = enc(l[0].1).len() as int;
    assert(enc_pairs(l) == kf + enc(l[0].1) + enc_pairs(l.drop_first()));
    assert(whole.len() == kl + vl + enc_pairs(l.drop_first()).len() + 1);
    assert(whole =~= kf + (enc(l[0].1) + (enc_pairs(l.drop_first()) + seq![101u8])));
    assert(kf =~= s.subrange(p, p + kl)) by {
        assert forall|i: int| 0 <= i < kl implies #[trigger] kf[i] == s.subrange(p, p + kl)[i] by {
            assert(whole[i] == kf[i]);
            assert(whole[i] == s[p + i]);
        }
    }
    assert(enc(l[0].1) =~= s.subrange(p + kl, p + kl + vl)) by {
        assert forall|i: int| 0 <= i < vl implies #[trigger] enc(l[0].1)[i] == s.subrange(
            p + kl,
            p + kl + vl,
        )[i] by {
            assert(whole[kl + i] == enc(l[0].1)[i]);
            assert(whole[kl + i] == s[p + kl + i]);
        }
    }
    assert(enc_pairs(l.drop_first()) + seq![101u8] =~= s.subrange(p + kl + vl, e)) by {
        assert forall|i: int|
            0 <= i < (enc_pairs(l.drop_first()) + seq![101u8]).len() implies #[trigger] (enc_pairs(
            l.drop_first(),
        ) + seq![101u8])[i] == s.subrange(p + kl + vl, e)[i] by {
            assert(whole[kl + vl + i] == (enc_pairs(l.drop_first()) + seq![101u8])[i]);
            assert(whole[kl + vl + i] == s[p + kl + vl + i]);
        }
    }
}

/// Parses one bencode value at `pos`.
///
/// On success, the consumed bytes are exactly the canonical serialization of
/// the returned value: `enc(v) == buf[pos..end]`. So re-encoding a parsed
/// value reproduces the very input bytes, and non-canonical spellings (a
/// leading zero, a negative zero) never parse. On an error, no value's
/// serialization starts at `pos` at all.
pub fn parse_value(buf: &Vec<u8>, pos: usize) -> (r: Result<(Bencode, usize), BencodeError>)
    requires
        pos <= buf.len(),
    ensures
        r matches Ok((v, end)) ==> pos < end <= buf@.len() && enc(v) == buf@.subrange(
            pos as int,
            end as int,
        ),
        r is Err ==> forall|v: Bencode, e: int| !value_at(buf@, pos as int, v, e),
    decreases buf@.len() - pos,
{
    if pos == buf.len() {
        proof {
            assert forall|v: Bencode, e: int| !value_at(buf@, pos as int, v, e) by {
                if value_at(buf@, pos as int, v, e) {
                    lemma_enc_first(v);
                    assert(false);
                }
            }
        }
        return Err(BencodeError);
    }
    let c = buf[pos];
    if c == 105 {
        // integer: 'i', an optional '-', canonical digits, 'e'
        let mut p = pos + 1;
        let negative = p < buf.len() && buf[p] == 45;
        if negative {
            p = p + 1;
        }
        let (mag, q) = match parse_digits(buf, p) {
            Ok(x) => x,
            Err(err) => {
                proof {
                    assert forall|v: Bencode, e: int| !value_at(buf@, pos as int, v, e) by {
                        if value_at(buf@, pos as int, v, e) {
                            lemma_int_value_shape(buf@, pos as int, v, e);
                            if let Bencode::Int(n) = v {
                                if n < 0 {
                                    let m = -(n as int);
                                    let m64 = m as u64;
                                    assert(m64 as int == m);
                                    assert(dec_text(m64 as int) == buf@.subrange(pos + 2, e - 1));
                                    assert(digit_boundary(buf@, e - 1));
                                } else {
                                    let m64 = n as u64;
                                    assert(m64 as int == n as int);
                                    assert(dec_text(m64 as int) == buf@.subrange(pos + 1, e - 1));
                                    assert(digit_boundary(buf@, e - 1));
                                }
                                assert(false);
                            }
                        }
                    }
                }
                return Err(err);
            },
        };
        if q == buf.len() || buf[q] != 101 {
            proof {
                assert forall|v: Bencode, e: int| !value_at(buf@, pos as int, v, e) by {
                    if value_at(buf@, pos as int, v, e) {
                        lemma_int_value_shape(buf@, pos as int, v, e);
                        if let Bencode::Int(n) = v {
                            if n < 0 {
                                lemma_dec_text_unique(
                                    buf@,
                                    p as int,
                                    mag as int,
                                    q as int,
                                    -(n as int),
                                    e - 1,
                                );
                            } else {
                                lemma_dec_text_unique(
                                    buf@,
                                    p as int,
                                    mag as int,
                                    q as int,
                                    n as int,
                                    e - 1,
                                );
                            }
                            assert(buf@[q as int] == 101);
                            assert(false);
                        }
                    }
                }
            }
            return Err(BencodeError);
        }
        let value: i64 = if negative {
            if mag == 0 || mag > 0x8000_0000_0000_0000u64 {
                proof {
                    assert forall|v: Bencode, e: int| !value_at(buf@, pos as int, v, e) by {
                        if value_at(buf@, pos as int, v, e) {
                            lemma_int_value_shape(buf@, pos as int, v, e);
                            if let Bencode::Int(n) = v {
                                assert(n < 0);
                                lemma_dec_text_unique(
                                    buf@,
                                    p as int,
                                    mag as int,
                                    q as int,
                                    -(n as int),
                                    e - 1,
                                );
                                assert(false);
                            }
                        }
                    }
                }
                return Err(BencodeError);
            }
            -((mag - 1) as i64) - 1
        } else {
            if mag > 0x7fff_ffff_ffff_ffffu64 {
                proof {
                    assert forall|v: Bencode, e: int| !value_at(buf@, pos as int, v, e) by {
                        if value_at(buf@, pos as int, v, e) {
                            lemma_int_value_shape(buf@, pos as int, v, e);
                            if let Bencode::Int(n) = v {
                                assert(n >= 0);
                                lemma_dec_text_unique(
                                    buf@,
                                    p as int,
                                    mag as int,
                                    q as int,
                                    n as int,
                                    e - 1,
                                );
                                assert(false);
                            }
                        }
                    }
                }
                return Err(BencodeError);
            }
            mag as i64
        };
        let end = q + 1;
        proof {
            assert(buf@.subrange(pos as int, pos + 1) =~= seq![105u8]);
            assert(buf@.subrange(q as int, end as int) =~= seq![101u8]);
            if negative {
                assert(buf@.subrange(pos + 1, pos + 2) =~= seq![45u8]);
                assert(int_text(value as int) =~= seq![45u8] + dec_text(mag as int));
            }
            assert(enc(Bencode::Int(value)) =~= buf@.subrange(pos as int, end as int));
        }
        Ok((Bencode::Int(value), end))
    } else if 48 <= c && c <= 57 {
        let (content, end) = match parse_bytes_at(buf, pos) {
            Ok(x) => x,
            Err(err) => {
                proof {
                    assert forall|v: Bencode, e: int| !value_at(buf@, pos as int, v, e) by {
                        if value_at(buf@, pos as int, v, e) {
                            lemma_bytes_value_shape(buf@, pos as int, v, e);
                            assert(false);
                        }
                    }
                }
                return Err(err);
            },
        };
        Ok((Bencode::Bytes(content), end))
    } else if c == 108 {
        // list: 'l', values, 'e'
        let mut items: Vec<Bencode> = Vec::new();
        let mut p = pos + 1;
        proof {
            assert forall|v: Bencode, e: int|
                value_at(buf@, pos as int, v, e) implies (v matches Bencode::List(itemsv) && p
                <= e && exists|j: int|
                0 <= j <= itemsv@.len() && enc_items(#[trigger] itemsv@.skip(j)) + seq![101u8]
                    == buf@.subrange(p as int, e)) by {
                lemma_list_value_shape(buf@, pos as int, v, e);
                if let Bencode::List(itemsv) = v {
                    assert(itemsv@.skip(0) =~= itemsv@);
                    assert(enc_items(itemsv@.skip(0)) + seq![101u8] == buf@.subrange(p as int, e));
                }
            }
        }
        while p < buf.len() && buf[p] != 101
            invariant
                pos < p <= buf.len(),
                enc_items(items@) == buf@.subrange(pos + 1, p as int),
                forall|v: Bencode, e: int|
                    value_at(buf@, pos as int, v, e) ==> (v matches Bencode::List(itemsv) && p
                        <= e && exists|j: int|
                        0 <= j <= itemsv@.len() && enc_items(#[trigger] itemsv@.skip(j))
                            + seq![101u8] == buf@.subrange(p as int, e)),
            decreases buf@.len() - p,
        {
            let (v0, np) = match parse_value(buf, p) {
                Ok(x) => x,
                Err(err) => {
                    proof {
                        assert forall|v: Bencode, e: int| !value_at(buf@, pos as int, v, e) by {
                            if value_at(buf@, pos as int, v, e) {
                                if let Bencode::List(itemsv) = v {
                                    let j = choose|j: int|
                                        0 <= j <= itemsv@.len() && enc_items(
                                            #[trigger] itemsv@.skip(j),
                                        ) + seq![101u8] == buf@.subrange(p as int, e);
                                    lemma_items_head(buf@, p as int, e, itemsv@.skip(j));
                                    assert(false);
                                }
                            }
                        }
                    }
                    return Err(err);
                },
            };
            proof {
                let np0 = np as int;
                assert(value_at(buf@, p as int, v0, np0));
                assert forall|v: Bencode, e: int|
                    value_at(buf@, pos as int, v, e) implies (v matches Bencode::List(itemsv)
                    && np0 <= e && exists|j: int|
                    0 <= j <= itemsv@.len() && enc_items(#[trigger] itemsv@.skip(j)) + seq![101u8]
                        == buf@.subrange(np0, e)) by {
                    if let Bencode::List(itemsv) = v {
                        let j = choose|j: int|
                            0 <= j <= itemsv@.len() && enc_items(#[trigger] itemsv@.skip(j))
                                + seq![101u8] == buf@.subrange(p as int, e);
                        lemma_items_head(buf@, p as int, e, itemsv@.skip(j));
                        let head = itemsv@.skip(j)[0];
                        lemma_value_at_unique_end(
                            buf@,
                            p as int,
                            head,
                            p + enc(head).len() as int,
                            v0,
                            np0,
                        );
                        assert(itemsv@.skip(j).drop_first() =~= itemsv@.skip(j + 1));
                        assert(0 <= j + 1 <= itemsv@.len());
                        assert(enc_items(itemsv@.skip(j + 1)) + seq![101u8] == buf@.subrange(
                            np0,
                            e,
                        ));
                    }
                }
            }
            let ghost items0 = items@;
            items.push(v0);
            proof {
                lemma_enc_items_snoc(items0, v0);
                assert(enc_items(items@) =~= buf@.subrange(pos + 1, np as int));
            }
            p = np;
        }
        if p == buf.len() {
            proof {
                assert forall|v: Bencode, e: int| !value_at(buf@, pos as int, v, e) by {
                    if value_at(buf@, pos as int, v, e) {
                        if let Bencode::List(itemsv) = v {
                            let j = choose|j: int|
                                0 <= j <= itemsv@.len() && enc_items(#[trigger] itemsv@.skip(j))
                                    + seq![101u8] == buf@.subrange(p as int, e);
                            assert(buf@.subrange(p as int, e).len() >= 1);
                            assert(false);
                        }
                    }
                }
            }
            return Err(BencodeError);
        }
        let end = p + 1;
        proof {
            assert(buf@.subrange(pos as int, pos + 1) =~= seq![108u8]);
            assert(buf@.subrange(p as int, end as int) =~= seq![101u8]);
            assert(enc(Bencode::List(items)) =~= buf@.subrange(pos as int, end as int));
        }
        Ok((Bencode::List(items), end))
    } else if c == 100 {
        // dictionary: 'd', key-value pairs, 'e'
        let mut pairs: Vec<(Vec<u8>, Bencode)> = Vec::new();
        let mut p = pos + 1;
        proof {
            assert forall|v: Bencode, e: int|
                value_at(buf@, pos as int, v, e) implies (v matches Bencode::Dict(pairsv) && p
                <= e && exists|j: int|
                0 <= j <= pairsv@.len() && enc_pairs(#[trigger] pairsv@.skip(j)) + seq![101u8]
                    == buf@.subrange(p as int, e)) by {
                lemma_dict_value_shape(buf@, pos as int, v, e);
                if let Bencode::Dict(pairsv) = v {
                    assert(pairsv@.skip(0) =~= pairsv@);
                    assert(enc_pairs(pairsv@.skip(0)) + seq![101u8] == buf@.subrange(p as int, e));
                }
            }
        }
        while p < buf.len() && buf[p] != 101
            invariant
                pos < p <= buf.len(),
                enc_pairs(pairs@) == buf@.subrange(pos + 1, p as int),
                forall|v: Bencode, e: int|
                    value_at(buf@, pos as int, v, e) ==> (v matches Bencode::Dict(pairsv) && p
                        <= e && exists|j: int|
                        0 <= j <= pairsv@.len() && enc_pairs(#[trigger] pairsv@.skip(j))
                            + seq![101u8] == buf@.subrange(p as int, e)),
            decreases buf@.len() - p,
        {
            let (key, kend) = match parse_bytes_at(buf, p) {
                Ok(x) => x,
                Err(err) => {
                    proof {
                        assert forall|v: Bencode, e: int| !value_at(buf@, pos as int, v, e) by {
                            if value_at(buf@, pos as int, v, e) {
                                if let Bencode::Dict(pairsv) = v {
                                    let j = choose|j: int|
                                        0 <= j <= pairsv@.len() && enc_pairs(
                                            #[trigger] pairsv@.skip(j),
                                        ) + seq![101u8] == buf@.subrange(p as int, e);
                                    lemma_pairs_head(buf@, p as int, e, pairsv@.skip(j));
                                    let hk = pairsv@.skip(j)[0].0@;
                                    let kl = (dec_text(hk.len() as int) + seq![58u8] + hk).len()
                                        as int;
                                    assert(dec_text(hk.len() as int) + seq![58u8] + hk
                                        == buf@.subrange(p as int, p + kl));
                                    assert(false);
                                }
                            }
                        }
                    }
                    return Err(err);
                },
            };
            let (v0, np) = match parse_value(buf, kend) {
                Ok(x) => x,
                Err(err) => {
                    proof {
                        assert forall|v: Bencode, e: int| !value_at(buf@, pos as int, v, e) by {
                            if value_at(buf@, pos as int, v, e) {
                                if let Bencode::Dict(pairsv) = v {
                                    let j = choose|j: int|
                                        0 <= j <= pairsv@.len() && enc_pairs(
                                            #[trigger] pairsv@.skip(j),
                                        ) + seq![101u8] == buf@.subrange(p as int, e);
                                    lemma_pairs_head(buf@, p as int, e, pairsv@.skip(j));
                                    let hk = pairsv@.skip(j)[0].0@;
                                    let hv = pairsv@.skip(j)[0].1;
                                    let kl = (dec_text(hk.len() as int) + seq![58u8] + hk).len()
                                        as int;
                                    lemma_bytes_form_unique(
                                        buf@,
                                        p as int,
                                        key@,
                                        kend as int,
                                        hk,
                                        p + kl,
                                    );
                                    assert(value_at(
                                        buf@,
                                        kend as int,
                                        hv,
                                        p + kl + enc(hv).len() as int,
                                    ));
                                    assert(false);
                                }
                            }
                        }
                    }
                    return Err(err);
                },
            };
            proof {
                let np0 = np as int;
                assert(value_at(buf@, kend as int, v0, np0));
                assert forall|v: Bencode, e: int|
                    value_at(buf@, pos as int, v, e) implies (v matches Bencode::Dict(pairsv)
                    && np0 <= e && exists|j: int|
                    0 <= j <= pairsv@.len() && enc_pairs(#[trigger] pairsv@.skip(j)) + seq![101u8]
                        == buf@.subrange(np0, e)) by {
                    if let Bencode::Dict(pairsv) = v {
                        let j = choose|j: int|
                            0 <= j <= pairsv@.len() && enc_pairs(#[trigger] pairsv@.skip(j))
                                + seq![101u8] == buf@.subrange(p as int, e);
                        lemma_pairs_head(buf@, p as int, e, pairsv@.skip(j));
                        let hk = pairsv@.skip(j)[0].0@;
                        let hv = pairsv@.skip(j)[0].1;
                        let kl = (dec_text(hk.len() as int) + seq![58u8] + hk).len() as int;
                        lemma_bytes_form_unique(buf@, p as int, key@, kend as int, hk, p + kl);
                        lemma_value_at_unique_end(
                            buf@,
                            kend as int,
                            hv,
                            p + kl + enc(hv).len() as int,
                            v0,
                            np0,
                        );
                        assert(pairsv@.skip(j).drop_first() =~= pairsv@.skip(j + 1));
                        assert(0 <= j + 1 <= pairsv@.len());
                        assert(enc_pairs(pairsv@.skip(j + 1)) + seq![101u8] == buf@.subrange(
                            np0,
                            e,
                        ));
                    }
                }
            }
            let ghost pairs0 = pairs@;
            let ghost keyv = key@;
            let ghost ev = enc(v0);
            pairs.push((key, v0));
            proof {
                let entry = pairs@[pairs@.len() - 1];
                assert(pairs@ == pairs0.push(entry));
                assert(entry.0@ == keyv && enc(entry.1) == ev);
                lemma_enc_pairs_snoc(pairs0, entry.0, entry.1);
                assert(buf@.subrange(pos + 1, np as int) =~= buf@.subrange(pos + 1, p as int)
                    + buf@.subrange(p as int, kend as int) + buf@.subrange(
                    kend as int,
                    np as int,
                ));
                assert(enc_pairs(pairs@) =~= buf@.subrange(pos + 1, np as int));
            }
            p = np;
        }
        if p == buf.len() {
            proof {
                assert forall|v: Bencode, e: int| !value_at(buf@, pos as int, v, e) by {
                    if value_at(buf@, pos as int, v, e) {
                        if let Bencode::Dict(pairsv) = v {
                            let j = choose|j: int|
                                0 <= j <= pairsv@.len() && enc_pairs(#[trigger] pairsv@.skip(j))
                                    + seq![101u8] == buf@.subrange(p as int, e);
                            assert(buf@.subrange(p as int, e).len() >= 1);
                            assert(false);
                        }
                    }
                }
            }
            return Err(BencodeError);
        }
        let end = p + 1;
        proof {
            assert(buf@.subrange(pos as int, pos + 1) =~= seq![100u8]);
            assert(buf@.subrange(p as int, end as int) =~= seq![101u8]);
            assert(enc(Bencode::Dict(pairs)) =~= buf@.subrange(pos as int, end as int));
        }
        Ok((Bencode::Dict(pairs), end))
    } else {
        proof {
            assert forall|v: Bencode, e: int| !value_at(buf@, pos as int, v, e) by {
                if value_at(buf@, pos as int, v, e) {
                    lemma_enc_first(v);
                    assert(enc(v)[0] == buf@.subrange(pos as int, e)[0]);
                    assert(buf@.subrange(pos as int, e)[0] == buf@[pos as int]);
                    assert(false);
                }
            }
        }
        Err(BencodeError)
    }
}

/// Appends the canonical bencode serialization of `v`.
pub fn encode_value(v: &Bencode, out: &mut Vec<u8>)
    ensures
        final(out)@ == old(out)@ + enc(*v),
    decreases *v,
{
    match v {
        Bencode::Int(i) => {
            out.push(105);
            crate::util::push_dec_i64(out, *i);
            out.push(101);
            proof {
                assert(out@ =~= old(out)@ + enc(*v));
            }
        },
        Bencode::Bytes(b) => {
            crate::util::push_dec_u64(out, b.len() as u64);
            out.push(58);
            out.extend_from_slice(b.as_slice());
            proof {
                assert(out@ =~= old(out)@ + enc(*v));
            }
        },
        Bencode::List(items) => {
            out.push(108);
            let n = items.len();
            let mut i: usize = 0;
            while i < n
                invariant
                    0 <= i <= n,
                    n == items@.len(),
                    v == Bencode::List(*items),
                    out@ == old(out)@ + seq![108u8] + enc_items(items@.take(i as int)),
                decreases n - i,
            {
                proof {
                    assert(decreases_to!(*v => v->List_0));
                    assert(v->List_0 == *items);
                    assert(decreases_to!(*items => items@));
                    assert(decreases_to!(items@ => items@[i as int]));
                }
                encode_value(&items[i], out);
                i = i + 1;
                proof {
                    assert(items@.take(i as int) =~= items@.take(i - 1).push(items@[i - 1]));
                    lemma_enc_items_snoc(items@.take(i - 1), items@[i - 1]);
                }
            }
            out.push(101);
            proof {
                assert(items@.take(n as int) =~= items@);
                assert(out@ =~= old(out)@ + enc(*v));
            }
        },
        Bencode::Dict(pairs) => {
            out.push(100);
            let n = pairs.len();
            let mut i: usize = 0;
            while i < n
                invariant
                    0 <= i <= n,
                    n == pairs@.len(),
                    v == Bencode::Dict(*pairs),
                    out@ == old(out)@ + seq![100u8] + enc_pairs(pairs@.take(i as int)),
                decreases n - i,
            {
                let key = &pairs[i].0;
                crate::util::push_dec_u64(out, key.len() as u64);
                out.push(58);
                out.extend_from_slice(key.as_slice());
                proof {
                    assert(decreases_to!(*v => v->Dict_0));
                    assert(v->Dict_0 == *pairs);
                    assert(decreases_to!(*pairs => pairs@));
                    assert(decreases_to!(pairs@ => pairs@[i as int]));
                    assert(decreases_to!(pairs@[i as int] => pairs@[i as int].1));
                }
                encode_value(&pairs[i].1, out);
                i = i + 1;
                proof {
                    assert(pairs@.take(i as int) =~= pairs@.take(i - 1).push(pairs@[i - 1]));
                    lemma_enc_pairs_snoc(
                        pairs@.take(i - 1),
                        pairs@[i - 1].0,
                        pairs@[i - 1].1,
                    );
                    assert(out@ =~= old(out)@ + seq![100u8] + enc_pairs(pairs@.take(i as int)));
                }
            }
            out.push(101);
            proof {
                assert(pairs@.take(n as int) =~= pairs@);
                assert(out@ =~= old(out)@ + enc(*v));
            }
        },
    }
}

} // verus!
