use vstd::prelude::*;
use vstd::utf8::{decode_utf8, encode_utf8, encode_utf8_decode_utf8, encode_utf8_valid_utf8, valid_utf8};

use crate::nbt::{
    NbtCompound, NbtError, NbtTag, NbtValue, children_encodable, list_value, tag_value, be16, be32, be64, bits16, bits32, bits64, enc_children, enc_ints,
    enc_items, enc_longs, enc_payload, enc_string, list_elem_id, type_id,
};

verus! {

/// Big-endian numbers read at `p`.
pub open spec fn rd16(b: Seq<u8>, p: int) -> u16 {
    (b[p] as int * 0x100 + b[p + 1] as int) as u16
}

pub open spec fn rd32(b: Seq<u8>, p: int) -> u32 {
    (b[p] as int * 0x100_0000 + b[p + 1] as int * 0x1_0000 + b[p + 2] as int * 0x100 + b[p
        + 3] as int) as u32
}

pub open spec fn rd64(b: Seq<u8>, p: int) -> u64 {
    (rd32(b, p) as int * 0x1_0000_0000 + rd32(b, p + 4) as int) as u64
}

pub open spec fn rd_i16(b: Seq<u8>, p: int) -> i16 {
    #[verifier::truncate]
    (rd16(b, p) as i16)
}

pub open spec fn rd_i32(b: Seq<u8>, p: int) -> i32 {
    #[verifier::truncate]
    (rd32(b, p) as i32)
}

pub open spec fn rd_i64(b: Seq<u8>, p: int) -> i64 {
    #[verifier::truncate]
    (rd64(b, p) as i64)
}

/// A string at `p`: u16 length, then that many bytes of UTF-8.
pub open spec fn parse_string(b: Seq<u8>, p: int) -> Result<(Seq<char>, int), NbtError> {
    if p < 0 || p + 2 > b.len() {
        Err(NbtError::Incomplete)
    } else {
        let n = rd16(b, p) as int;
        if p + 2 + n > b.len() {
            Err(NbtError::Incomplete)
        } else if !valid_utf8(b.subrange(p + 2, p + 2 + n)) {
            Err(NbtError::InvalidUtf8)
        } else {
            Ok((decode_utf8(b.subrange(p + 2, p + 2 + n)), p + 2 + n))
        }
    }
}

/// A length field at `p`: an i32 that must not be negative.
pub open spec fn parse_len(b: Seq<u8>, p: int) -> Result<nat, NbtError> {
    if p < 0 || p + 4 > b.len() {
        Err(NbtError::Incomplete)
    } else if rd_i32(b, p) < 0 {
        Err(NbtError::NegativeLength)
    } else {
        Ok(rd_i32(b, p) as nat)
    }
}

/// Puts `(name, v)` unless `name` is already there: the first write wins.
pub open spec fn put_value(acc: Seq<(Seq<char>, NbtValue)>, name: Seq<char>, v: NbtValue) -> Seq<
    (Seq<char>, NbtValue),
> {
    if exists|i: int| 0 <= i < acc.len() && acc[i].0 == name {
        acc
    } else {
        acc.push((name, v))
    }
}

/// The compound that putting `children` one by one builds.
pub open spec fn put_all(children: Seq<(Seq<char>, NbtValue)>) -> Seq<(Seq<char>, NbtValue)>
    decreases children.len(),
{
    if children.len() == 0 {
        Seq::empty()
    } else {
        put_value(put_all(children.drop_last()), children.last().0, children.last().1)
    }
}

/// The payload of a tag of type `id` at `p`, and the position after it.
pub open spec fn parse_payload(b: Seq<u8>, p: int, id: u8) -> Result<(NbtValue, int), NbtError>
    decreases b.len() - p, 2int, 0int,
{
    if p < 0 || p > b.len() {
        Err(NbtError::Incomplete)
    } else if id == 0 {
        Ok((NbtValue::End, p))
    } else if id == 1 {
        if p + 1 > b.len() {
            Err(NbtError::Incomplete)
        } else {
            Ok((NbtValue::Byte(#[verifier::truncate] (b[p] as i8)), p + 1))
        }
    } else if id == 2 {
        if p + 2 > b.len() {
            Err(NbtError::Incomplete)
        } else {
            Ok((NbtValue::Short(rd_i16(b, p)), p + 2))
        }
    } else if id == 3 {
        if p + 4 > b.len() {
            Err(NbtError::Incomplete)
        } else {
            Ok((NbtValue::Int(rd_i32(b, p)), p + 4))
        }
    } else if id == 4 {
        if p + 8 > b.len() {
            Err(NbtError::Incomplete)
        } else {
            Ok((NbtValue::Long(rd_i64(b, p)), p + 8))
        }
    } else if id == 5 {
        if p + 4 > b.len() {
            Err(NbtError::Incomplete)
        } else {
            Ok((NbtValue::Float(rd32(b, p)), p + 4))
        }
    } else if id == 6 {
        if p + 8 > b.len() {
            Err(NbtError::Incomplete)
        } else {
            Ok((NbtValue::Double(rd64(b, p)), p + 8))
        }
    } else if id == 7 {
        match parse_len(b, p) {
            Err(e) => Err(e),
            Ok(n) => if p + 4 + n > b.len() {
                Err(NbtError::Incomplete)
            } else {
                Ok((NbtValue::ByteArray(b.subrange(p + 4, p + 4 + n)), p + 4 + n))
            },
        }
    } else if id == 8 {
        match parse_string(b, p) {
            Err(e) => Err(e),
            Ok((s, q)) => Ok((NbtValue::String(s), q)),
        }
    } else if id == 9 {
        if p + 1 > b.len() {
            Err(NbtError::Incomplete)
        } else {
            match parse_len(b, p + 1) {
                Err(e) => Err(e),
                Ok(n) => match parse_list(b, p + 5, b[p], n) {
                    Err(e) => Err(e),
                    Ok((items, q)) => Ok((NbtValue::List(items), q)),
                },
            }
        }
    } else if id == 10 {
        match parse_children(b, p) {
            Err(e) => Err(e),
            Ok((children, q)) => Ok((NbtValue::Compound(put_all(children)), q)),
        }
    } else if id == 11 {
        match parse_len(b, p) {
            Err(e) => Err(e),
            Ok(n) => if p + 4 + 4 * n > b.len() {
                Err(NbtError::Incomplete)
            } else {
                Ok((NbtValue::IntArray(Seq::new(n, |k: int| rd_i32(b, p + 4 + 4 * k))), p + 4 + 4 * n))
            },
        }
    } else if id == 12 {
        match parse_len(b, p) {
            Err(e) => Err(e),
            Ok(n) => if p + 4 + 8 * n > b.len() {
                Err(NbtError::Incomplete)
            } else {
                Ok((NbtValue::LongArray(Seq::new(n, |k: int| rd_i64(b, p + 4 + 8 * k))), p + 4 + 8 * n))
            },
        }
    } else {
        Err(NbtError::UnknownTagId(id))
    }
}

/// `n` payloads of type `id` from `p` on.
pub open spec fn parse_list(b: Seq<u8>, p: int, id: u8, n: nat) -> Result<
    (Seq<NbtValue>, int),
    NbtError,
>
    decreases b.len() - p, 3int, n,
{
    if n == 0 {
        Ok((Seq::empty(), p))
    } else if p < 0 || p > b.len() {
        Err(NbtError::Incomplete)
    } else {
        match parse_payload(b, p, id) {
            Err(e) => Err(e),
            Ok((v, q)) => if q < p || q > b.len() {
                Err(NbtError::Incomplete)
            } else {
                match parse_list(b, q, id, (n - 1) as nat) {
                    Err(e) => Err(e),
                    Ok((rest, r)) => Ok((seq![v] + rest, r)),
                }
            },
        }
    }
}

/// Named tags from `p` up to an End byte, or to the end of the input; the
/// names and values in the order read.
pub open spec fn parse_children(b: Seq<u8>, p: int) -> Result<
    (Seq<(Seq<char>, NbtValue)>, int),
    NbtError,
>
    decreases b.len() - p, 1int, 0int,
{
    if p < 0 || p > b.len() {
        Err(NbtError::Incomplete)
    } else if p == b.len() {
        Ok((Seq::empty(), p))
    } else if b[p] == 0 {
        Ok((Seq::empty(), p + 1))
    } else {
        match parse_string(b, p + 1) {
            Err(e) => Err(e),
            Ok((name, q)) => if q <= p || q > b.len() {
                Err(NbtError::Incomplete)
            } else {
                match parse_payload(b, q, b[p]) {
                    Err(e) => Err(e),
                    Ok((v, r)) => if r < q || r > b.len() {
                        Err(NbtError::Incomplete)
                    } else {
                        match parse_children(b, r) {
                            Err(e) => Err(e),
                            Ok((rest, s)) => Ok((seq![(name, v)] + rest, s)),
                        }
                    },
                }
            },
        }
    }
}

/// Names of a compound given once each.
pub open spec fn names_unique(cs: Seq<(Seq<char>, NbtValue)>) -> bool {
    forall|i: int, j: int| 0 <= i < j < cs.len() ==> #[trigger] cs[i].0 != #[trigger] cs[j].0
}

/// A value the format can hold and read back: lengths fit their fields,
/// list elements share the list's type, compound names are given once and
/// no compound holds an End.
pub open spec fn well_formed(v: NbtValue) -> bool
    decreases v,
{
    match v {
        NbtValue::ByteArray(a) => a.len() <= i32::MAX,
        NbtValue::String(s) => encode_utf8(s).len() <= u16::MAX,
        NbtValue::List(items) => items.len() <= i32::MAX && forall|i: int|
            0 <= i < items.len() ==> type_id(#[trigger] items[i]) == list_elem_id(items)
                && well_formed(items[i]),
        NbtValue::Compound(cs) => names_unique(cs) && forall|i: int|
            0 <= i < cs.len() ==> encode_utf8(#[trigger] cs[i].0).len() <= u16::MAX && type_id(
                cs[i].1,
            ) != 0 && well_formed(cs[i].1),
        NbtValue::IntArray(a) => a.len() <= i32::MAX,
        NbtValue::LongArray(a) => a.len() <= i32::MAX,
        _ => true,
    }
}

proof fn lemma_rd16(b: Seq<u8>, p: int, v: u16)
    requires
        0 <= p,
        p + 2 <= b.len(),
        b.subrange(p, p + 2) == be16(v),
    ensures
        rd16(b, p) == v,
{
    assert(b[p] == be16(v)[0] && b[p + 1] == be16(v)[1]);
}

proof fn lemma_rd32(b: Seq<u8>, p: int, v: u32)
    requires
        0 <= p,
        p + 4 <= b.len(),
        b.subrange(p, p + 4) == be32(v),
    ensures
        rd32(b, p) == v,
{
    assert(b[p] == be32(v)[0] && b[p + 1] == be32(v)[1] && b[p + 2] == be32(v)[2] && b[p + 3]
        == be32(v)[3]);
}

proof fn lemma_rd64(b: Seq<u8>, p: int, v: u64)
    requires
        0 <= p,
        p + 8 <= b.len(),
        b.subrange(p, p + 8) == be64(v),
    ensures
        rd64(b, p) == v,
{
    let hi = (v / 0x1_0000_0000) as u32;
    let lo = (v % 0x1_0000_0000) as u32;
    lemma_split(b, p, be32(hi), be32(lo));
    lemma_rd32(b, p, hi);
    lemma_rd32(b, p + 4, lo);
}

/// Where `a + c` stands at `p`, `a` stands at `p` and `c` right after it.
proof fn lemma_split(b: Seq<u8>, p: int, a: Seq<u8>, c: Seq<u8>)
    requires
        0 <= p,
        p + a.len() + c.len() <= b.len(),
        b.subrange(p, p + a.len() + c.len()) == a + c,
    ensures
        b.subrange(p, p + a.len()) == a,
        b.subrange(p + a.len(), p + a.len() + c.len()) == c,
{
    assert(b.subrange(p, p + a.len()) =~= (a + c).subrange(0, a.len() as int));
    assert(b.subrange(p + a.len(), p + a.len() + c.len()) =~= (a + c).subrange(
        a.len() as int,
        (a.len() + c.len()) as int,
    ));
    assert((a + c).subrange(0, a.len() as int) =~= a);
    assert((a + c).subrange(a.len() as int, (a.len() + c.len()) as int) =~= c);
}

proof fn lemma_enc_items_front(items: Seq<NbtValue>)
    requires
        items.len() > 0,
    ensures
        enc_items(items) == enc_payload(items[0]) + enc_items(items.drop_first()),
    decreases items.len(),
{
    if items.len() > 1 {
        lemma_enc_items_front(items.drop_last());
        assert(enc_items(items) == enc_items(items.drop_last()) + enc_payload(items.last()));
        assert(enc_items(items.drop_first()) == enc_items(items.drop_first().drop_last())
            + enc_payload(items.drop_first().last()));
        assert(items.drop_last().drop_first() =~= items.drop_first().drop_last());
        assert(items.drop_first().last() == items.last());
        assert(items.drop_last()[0] == items[0]);
        assert(enc_items(items) =~= enc_payload(items[0]) + enc_items(items.drop_first()));
    } else {
        assert(items.drop_last().len() == 0);
        assert(items.drop_first().len() == 0);
        assert(enc_items(items.drop_last()) =~= Seq::<u8>::empty());
        assert(enc_items(items.drop_first()) =~= Seq::<u8>::empty());
        assert(items.last() == items[0]);
        assert(enc_items(items) =~= enc_payload(items[0]) + enc_items(items.drop_first()));
    }
}

proof fn lemma_enc_children_front(cs: Seq<(Seq<char>, NbtValue)>)
    requires
        cs.len() > 0,
    ensures
        enc_children(cs) == (seq![type_id(cs[0].1)] + enc_string(cs[0].0) + enc_payload(cs[0].1))
            + enc_children(cs.drop_first()),
    decreases cs.len(),
{
    if cs.len() > 1 {
        lemma_enc_children_front(cs.drop_last());
        let dl = cs.drop_last();
        let df = cs.drop_first();
        assert(enc_children(cs) == enc_children(dl) + (seq![type_id(cs.last().1)] + enc_string(
            cs.last().0,
        ) + enc_payload(cs.last().1)));
        assert(enc_children(df) == enc_children(df.drop_last()) + (seq![type_id(df.last().1)]
            + enc_string(df.last().0) + enc_payload(df.last().1)));
        assert(cs.drop_last().drop_first() =~= cs.drop_first().drop_last());
        assert(cs.drop_first().last() == cs.last());
        assert(cs.drop_last()[0] == cs[0]);
        assert(enc_children(cs) =~= (seq![type_id(cs[0].1)] + enc_string(cs[0].0) + enc_payload(
            cs[0].1,
        )) + enc_children(cs.drop_first()));
    } else {
        assert(cs.drop_last().len() == 0);
        assert(cs.drop_first().len() == 0);
        assert(enc_children(cs.drop_last()) =~= Seq::<u8>::empty());
        assert(enc_children(cs.drop_first()) =~= Seq::<u8>::empty());
        assert(cs.last() == cs[0]);
        assert(enc_children(cs) =~= (seq![type_id(cs[0].1)] + enc_string(cs[0].0) + enc_payload(
            cs[0].1,
        )) + enc_children(cs.drop_first()));
    }
}

proof fn lemma_enc_ints(a: Seq<i32>)
    ensures
        enc_ints(a).len() == 4 * a.len(),
        forall|k: int|
            0 <= k < a.len() ==> #[trigger] enc_ints(a).subrange(4 * k, 4 * k + 4) == be32(
                bits32(a[k]),
            ),
    decreases a.len(),
{
    if a.len() > 0 {
        let d = a.drop_last();
        lemma_enc_ints(d);
        assert forall|k: int| 0 <= k < a.len() implies #[trigger] enc_ints(a).subrange(
            4 * k,
            4 * k + 4,
        ) == be32(bits32(a[k])) by {
            if k < d.len() {
                assert(enc_ints(a).subrange(4 * k, 4 * k + 4) =~= enc_ints(d).subrange(
                    4 * k,
                    4 * k + 4,
                ));
                assert(d[k] == a[k]);
            } else {
                assert(enc_ints(a).subrange(4 * k, 4 * k + 4) =~= be32(bits32(a.last())));
            }
        }
    }
}

proof fn lemma_enc_longs(a: Seq<i64>)
    ensures
        enc_longs(a).len() == 8 * a.len(),
        forall|k: int|
            0 <= k < a.len() ==> #[trigger] enc_longs(a).subrange(8 * k, 8 * k + 8) == be64(
                bits64(a[k]),
            ),
    decreases a.len(),
{
    if a.len() > 0 {
        let d = a.drop_last();
        lemma_enc_longs(d);
        assert forall|k: int| 0 <= k < a.len() implies #[trigger] enc_longs(a).subrange(
            8 * k,
            8 * k + 8,
        ) == be64(bits64(a[k])) by {
            if k < d.len() {
                assert(enc_longs(a).subrange(8 * k, 8 * k + 8) =~= enc_longs(d).subrange(
                    8 * k,
                    8 * k + 8,
                ));
                assert(d[k] == a[k]);
            } else {
                assert(enc_longs(a).subrange(8 * k, 8 * k + 8) =~= be64(bits64(a.last())));
            }
        }
    }
}

/// Putting children whose names are all different keeps them as they are.
proof fn lemma_put_all_unique(cs: Seq<(Seq<char>, NbtValue)>)
    requires
        names_unique(cs),
    ensures
        put_all(cs) == cs,
    decreases cs.len(),
{
    if cs.len() > 0 {
        let d = cs.drop_last();
        assert(names_unique(d)) by {
            assert forall|i: int, j: int| 0 <= i < j < d.len() implies #[trigger] d[i].0
                != #[trigger] d[j].0 by {
                assert(d[i] == cs[i] && d[j] == cs[j]);
            }
        }
        lemma_put_all_unique(d);
        if exists|i: int| 0 <= i < d.len() && d[i].0 == cs.last().0 {
            let i = choose|i: int| 0 <= i < d.len() && d[i].0 == cs.last().0;
            assert(cs[i].0 == cs[cs.len() - 1].0);
        }
        assert(d.push(cs.last()) =~= cs);
    }
}

proof fn lemma_string_round_trip(b: Seq<u8>, p: int, s: Seq<char>)
    requires
        encode_utf8(s).len() <= u16::MAX,
        0 <= p,
        p + enc_string(s).len() <= b.len(),
        b.subrange(p, p + enc_string(s).len()) == enc_string(s),
    ensures
        parse_string(b, p) == Ok::<(Seq<char>, int), NbtError>((s, p + enc_string(s).len())),
{
    let bytes = encode_utf8(s);
    let n = bytes.len() as u16;
    lemma_split(b, p, be16(n), bytes);
    lemma_rd16(b, p, n);
    encode_utf8_valid_utf8(s);
    encode_utf8_decode_utf8(s);
}

proof fn lemma_signed_round_trip(x: i16, y: i32, z: i64, w: i8)
    ensures
        (#[verifier::truncate] ((#[verifier::truncate] (x as u16)) as i16)) == x,
        (#[verifier::truncate] ((#[verifier::truncate] (y as u32)) as i32)) == y,
        (#[verifier::truncate] ((#[verifier::truncate] (z as u64)) as i64)) == z,
        (#[verifier::truncate] ((#[verifier::truncate] (w as u8)) as i8)) == w,
{
    assert((#[verifier::truncate] ((#[verifier::truncate] (x as u16)) as i16)) == x)
        by (bit_vector);
    assert((#[verifier::truncate] ((#[verifier::truncate] (y as u32)) as i32)) == y)
        by (bit_vector);
    assert((#[verifier::truncate] ((#[verifier::truncate] (z as u64)) as i64)) == z)
        by (bit_vector);
    assert((#[verifier::truncate] ((#[verifier::truncate] (w as u8)) as i8)) == w)
        by (bit_vector);
}

proof fn lemma_len_round_trip(b: Seq<u8>, p: int, n: nat)
    requires
        n <= i32::MAX,
        0 <= p,
        p + 4 <= b.len(),
        b.subrange(p, p + 4) == be32(n as u32),
    ensures
        parse_len(b, p) == Ok::<nat, NbtError>(n),
{
    lemma_rd32(b, p, n as u32);
    assert((#[verifier::truncate] ((n as u32) as i32)) == n);
}

/// Reading a value's payload where it was written gives the value back.
proof fn lemma_payload_round_trip(b: Seq<u8>, p: int, v: NbtValue)
    requires
        well_formed(v),
        0 <= p,
        p + enc_payload(v).len() <= b.len(),
        b.subrange(p, p + enc_payload(v).len()) == enc_payload(v),
    ensures
        parse_payload(b, p, type_id(v)) == Ok::<(NbtValue, int), NbtError>(
            (v, p + enc_payload(v).len()),
        ),
    decreases v,
{
    let e = enc_payload(v);
    match v {
        NbtValue::End => {},
        NbtValue::Byte(x) => {
            assert(b[p] == e[0]);
            lemma_signed_round_trip(0, 0, 0, x);
        },
        NbtValue::Short(x) => {
            lemma_rd16(b, p, bits16(x));
            lemma_signed_round_trip(x, 0, 0, 0);
        },
        NbtValue::Int(x) => {
            lemma_rd32(b, p, bits32(x));
            lemma_signed_round_trip(0, x, 0, 0);
        },
        NbtValue::Long(x) => {
            lemma_rd64(b, p, bits64(x));
            lemma_signed_round_trip(0, 0, x, 0);
        },
        NbtValue::Float(x) => {
            lemma_rd32(b, p, x);
        },
        NbtValue::Double(x) => {
            lemma_rd64(b, p, x);
        },
        NbtValue::ByteArray(a) => {
            lemma_split(b, p, be32(a.len() as u32), a);
            lemma_len_round_trip(b, p, a.len());
        },
        NbtValue::String(s) => {
            lemma_string_round_trip(b, p, s);
        },
        NbtValue::List(items) => {
            let head = seq![list_elem_id(items)] + be32(items.len() as u32);
            lemma_split(b, p, head, enc_items(items));
            lemma_split(b, p, seq![list_elem_id(items)], be32(items.len() as u32));
            assert(b[p] == list_elem_id(items)) by {
                assert(b.subrange(p, p + 1)[0] == b[p]);
            }
            lemma_len_round_trip(b, p + 1, items.len());
            lemma_list_round_trip(b, p + 5, items, list_elem_id(items));
        },
        NbtValue::Compound(cs) => {
            lemma_children_round_trip(b, p, cs);
            lemma_put_all_unique(cs);
        },
        NbtValue::IntArray(a) => {
            lemma_split(b, p, be32(a.len() as u32), enc_ints(a));
            lemma_len_round_trip(b, p, a.len());
            lemma_enc_ints(a);
            let r = Seq::new(a.len(), |k: int| rd_i32(b, p + 4 + 4 * k));
            assert forall|k: int| 0 <= k < a.len() implies r[k] == a[k] by {
                assert(b.subrange(p + 4 + 4 * k, p + 4 + 4 * k + 4) =~= enc_ints(a).subrange(
                    4 * k,
                    4 * k + 4,
                ));
                lemma_rd32(b, p + 4 + 4 * k, bits32(a[k]));
                lemma_signed_round_trip(0, a[k], 0, 0);
            }
            assert(r =~= a);
        },
        NbtValue::LongArray(a) => {
            lemma_split(b, p, be32(a.len() as u32), enc_longs(a));
            lemma_len_round_trip(b, p, a.len());
            lemma_enc_longs(a);
            let r = Seq::new(a.len(), |k: int| rd_i64(b, p + 4 + 8 * k));
            assert forall|k: int| 0 <= k < a.len() implies r[k] == a[k] by {
                assert(b.subrange(p + 4 + 8 * k, p + 4 + 8 * k + 8) =~= enc_longs(a).subrange(
                    8 * k,
                    8 * k + 8,
                ));
                lemma_rd64(b, p + 4 + 8 * k, bits64(a[k]));
                lemma_signed_round_trip(0, 0, a[k], 0);
            }
            assert(r =~= a);
        },
    }
}

proof fn lemma_list_round_trip(b: Seq<u8>, p: int, items: Seq<NbtValue>, id: u8)
    requires
        forall|i: int| 0 <= i < items.len() ==> type_id(#[trigger] items[i]) == id && well_formed(items[i]),
        0 <= p,
        p + enc_items(items).len() <= b.len(),
        b.subrange(p, p + enc_items(items).len()) == enc_items(items),
    ensures
        parse_list(b, p, id, items.len()) == Ok::<(Seq<NbtValue>, int), NbtError>(
            (items, p + enc_items(items).len()),
        ),
    decreases items,
{
    if items.len() == 0 {
        assert(enc_items(items).len() == 0);
        assert(items =~= Seq::<NbtValue>::empty());
    } else {
        lemma_enc_items_front(items);
        let first = enc_payload(items[0]);
        let rest = items.drop_first();
        lemma_split(b, p, first, enc_items(rest));
        lemma_payload_round_trip(b, p, items[0]);
        assert forall|i: int| 0 <= i < rest.len() implies type_id(#[trigger] rest[i]) == id
            && well_formed(rest[i]) by {
            assert(rest[i] == items[i + 1]);
        }
        lemma_list_round_trip(b, p + first.len(), rest, id);
        assert(seq![items[0]] + rest =~= items);
    }
}

proof fn lemma_children_round_trip(b: Seq<u8>, p: int, cs: Seq<(Seq<char>, NbtValue)>)
    requires
        forall|i: int|
            0 <= i < cs.len() ==> encode_utf8(#[trigger] cs[i].0).len() <= u16::MAX && type_id(
                cs[i].1,
            ) != 0 && well_formed(cs[i].1),
        0 <= p,
        p + enc_children(cs).len() + 1 <= b.len(),
        b.subrange(p, p + enc_children(cs).len() + 1) == enc_children(cs) + seq![0u8],
    ensures
        parse_children(b, p) == Ok::<(Seq<(Seq<char>, NbtValue)>, int), NbtError>(
            (cs, p + enc_children(cs).len() + 1),
        ),
    decreases cs,
{
    let whole = enc_children(cs) + seq![0u8];
    if cs.len() == 0 {
        assert(enc_children(cs).len() == 0);
        assert(b[p] == b.subrange(p, p + 1)[0]);
        assert(b[p] == whole[0]);
        assert(cs =~= Seq::<(Seq<char>, NbtValue)>::empty());
    } else {
        lemma_enc_children_front(cs);
        let (name, v) = cs[0];
        let tag = seq![type_id(v)];
        let one = tag + enc_string(name) + enc_payload(v);
        let rest = cs.drop_first();
        assert(whole =~= one + (enc_children(rest) + seq![0u8]));
        lemma_split(b, p, one, enc_children(rest) + seq![0u8]);
        lemma_split(b, p, tag + enc_string(name), enc_payload(v));
        lemma_split(b, p, tag, enc_string(name));
        assert(b[p] == type_id(v)) by {
            assert(b.subrange(p, p + 1)[0] == b[p]);
        }
        lemma_string_round_trip(b, p + 1, name);
        lemma_payload_round_trip(b, p + 1 + enc_string(name).len(), v);
        assert forall|i: int| 0 <= i < rest.len() implies encode_utf8(#[trigger] rest[i].0).len()
            <= u16::MAX && type_id(rest[i].1) != 0 && well_formed(rest[i].1) by {
            assert(rest[i] == cs[i + 1]);
        }
        lemma_children_round_trip(b, p + one.len(), rest);
        assert(seq![(name, v)] + rest =~= cs);
    }
}

/// The named root compound of a byte string: type 10, a name, then the
/// compound's named tags.
pub open spec fn parse_root(b: Seq<u8>) -> Result<Seq<(Seq<char>, NbtValue)>, NbtError> {
    if b.len() < 1 {
        Err(NbtError::Incomplete)
    } else if b[0] != 10 {
        Err(NbtError::NoRootCompound(b[0]))
    } else {
        match parse_string(b, 1) {
            Err(e) => Err(e),
            Ok((_, q)) => match parse_children(b, q) {
                Err(e) => Err(e),
                Ok((cs, _)) => Ok(put_all(cs)),
            },
        }
    }
}

/// The bytes of a root compound with an empty name.
pub open spec fn root_bytes(cs: Seq<(Seq<char>, NbtValue)>) -> Seq<u8> {
    seq![10u8, 0u8, 0u8] + enc_children(cs) + seq![0u8]
}

/// Decoding an encoded compound gives it back, children in their order,
/// for every well-formed compound.
pub proof fn lemma_nbt_round_trip(cs: Seq<(Seq<char>, NbtValue)>)
    requires
        well_formed(NbtValue::Compound(cs)),
    ensures
        parse_root(root_bytes(cs)) == Ok::<Seq<(Seq<char>, NbtValue)>, NbtError>(cs),
        parse_children(root_bytes(cs), 3) == Ok::<(Seq<(Seq<char>, NbtValue)>, int), NbtError>(
            (cs, root_bytes(cs).len() as int),
        ),
{
    let b = root_bytes(cs);
    let body = enc_children(cs) + seq![0u8];
    assert(b =~= seq![10u8] + enc_string(Seq::<char>::empty()) + body) by {
        assert(encode_utf8(Seq::<char>::empty()) =~= Seq::<u8>::empty());
        assert(be16(0) =~= seq![0u8, 0u8]);
    }
    assert(b.subrange(3, 3 + body.len() as int) =~= body);
    assert(b.subrange(1, 3) =~= enc_string(Seq::<char>::empty()));
    lemma_string_round_trip(b, 1, Seq::<char>::empty());
    lemma_children_round_trip(b, 3, cs);
    lemma_put_all_unique(cs);
}

/// Relies on `String::from_utf8`: it accepts exactly the byte sequences
/// that are valid UTF-8, and the string it gives holds the decoded characters.
#[verifier::external_body]
fn string_from_utf8(bytes: Vec<u8>) -> (r: Option<String>)
    ensures
        r is Some <==> valid_utf8(bytes@),
        r matches Some(s) ==> s@ == decode_utf8(bytes@),
{
    String::from_utf8(bytes).ok()
}

fn read_u16(b: &[u8], p: usize) -> (r: u16)
    requires
        p + 2 <= b@.len(),
    ensures
        r == rd16(b@, p as int),
{
    (b[p] as u16) * 0x100 + (b[p + 1] as u16)
}

fn read_u32(b: &[u8], p: usize) -> (r: u32)
    requires
        p + 4 <= b@.len(),
    ensures
        r == rd32(b@, p as int),
{
    (b[p] as u32) * 0x100_0000 + (b[p + 1] as u32) * 0x1_0000 + (b[p + 2] as u32) * 0x100 + (b[p
        + 3] as u32)
}

fn read_u64(b: &[u8], p: usize) -> (r: u64)
    requires
        p + 8 <= b@.len(),
    ensures
        r == rd64(b@, p as int),
{
    let _len = b.len();
    (read_u32(b, p) as u64) * 0x1_0000_0000 + (read_u32(b, p + 4) as u64)
}

fn read_string(b: &[u8], p: usize) -> (r: Result<(String, usize), NbtError>)
    requires
        p <= b@.len(),
    ensures
        match parse_string(b@, p as int) {
            Ok((s, q)) => r matches Ok((t, q2)) && t@ == s && q2 == q,
            Err(e) => r == Err::<(String, usize), NbtError>(e),
        },
{
    if b.len() - p < 2 {
        return Err(NbtError::Incomplete);
    }
    let n = read_u16(b, p) as usize;
    if b.len() - (p + 2) < n {
        return Err(NbtError::Incomplete);
    }
    let bytes = copy_bytes(b, p + 2, n);
    match string_from_utf8(bytes) {
        Some(s) => Ok((s, p + 2 + n)),
        None => Err(NbtError::InvalidUtf8),
    }
}

fn copy_bytes(b: &[u8], p: usize, n: usize) -> (r: Vec<u8>)
    requires
        p + n <= b@.len(),
    ensures
        r@ == b@.subrange(p as int, p + n),
{
    let mut out: Vec<u8> = Vec::new();
    let mut k: usize = 0;
    let len = b.len();
    while k < n
        invariant
            k <= n,
            len == b@.len(),
            p + n <= b@.len(),
            out@ == b@.subrange(p as int, p + k),
        decreases n - k,
    {
        out.push(b[p + k]);
        k = k + 1;
        assert(out@ =~= b@.subrange(p as int, p + k));
    }
    out
}

fn read_len(b: &[u8], p: usize) -> (r: Result<usize, NbtError>)
    requires
        p <= b@.len(),
    ensures
        match parse_len(b@, p as int) {
            Ok(n) => r == Ok::<usize, NbtError>(n as usize) && n <= i32::MAX,
            Err(e) => r == Err::<usize, NbtError>(e),
        },
{
    if b.len() - p < 4 {
        return Err(NbtError::Incomplete);
    }
    let n: i32 = #[verifier::truncate] (read_u32(b, p) as i32);
    if n < 0 {
        Err(NbtError::NegativeLength)
    } else {
        Ok(n as usize)
    }
}

/// Whether `p + head + n * width` stays within `len`.
fn fits(len: usize, p: usize, head: usize, n: usize, width: usize) -> (r: bool)
    requires
        p <= len,
        1 <= width <= 8,
        head <= 8,
    ensures
        r == (p + head + n * width <= len),
{
    let avail = len - p;
    if avail < head {
        false
    } else {
        let room = (avail - head) / width;
        proof {
            vstd::arithmetic::div_mod::lemma_fundamental_div_mod(
                (avail - head) as int,
                width as int,
            );
            assert((n <= room) == (n * width <= avail - head)) by (nonlinear_arith)
                requires
                    avail - head == width * room + (avail - head) % (width as int),
                    0 <= (avail - head) % (width as int) < width,
                    width >= 1,
                    room >= 0,
            ;
        }
        n <= room
    }
}

pub open spec fn prepend_list(acc: Seq<NbtValue>, r: Result<(Seq<NbtValue>, int), NbtError>) -> Result<
    (Seq<NbtValue>, int),
    NbtError,
> {
    match r {
        Ok((rest, q)) => Ok((acc + rest, q)),
        Err(e) => Err(e),
    }
}

pub open spec fn prepend_children(
    acc: Seq<(Seq<char>, NbtValue)>,
    r: Result<(Seq<(Seq<char>, NbtValue)>, int), NbtError>,
) -> Result<(Seq<(Seq<char>, NbtValue)>, int), NbtError> {
    match r {
        Ok((rest, q)) => Ok((acc + rest, q)),
        Err(e) => Err(e),
    }
}

/// Reads the payload of a tag of type `id` at `p`.
pub fn read_payload(b: &[u8], p: usize, id: u8) -> (r: Result<(NbtTag, usize), NbtError>)
    requires
        p <= b@.len(),
    ensures
        match parse_payload(b@, p as int, id) {
            Ok((v, q)) => r matches Ok((t, q2)) && tag_value(t) == v && q2 == q,
            Err(e) => r matches Err(e2) && e2 == e,
        },
    decreases b@.len() - p, 2int, 0int,
{
    let len = b.len();
    if id == 0 {
        Ok((NbtTag::End, p))
    } else if id == 1 {
        if len - p < 1 {
            return Err(NbtError::Incomplete);
        }
        Ok((NbtTag::Byte(#[verifier::truncate] (b[p] as i8)), p + 1))
    } else if id == 2 {
        if len - p < 2 {
            return Err(NbtError::Incomplete);
        }
        Ok((NbtTag::Short(#[verifier::truncate] (read_u16(b, p) as i16)), p + 2))
    } else if id == 3 {
        if len - p < 4 {
            return Err(NbtError::Incomplete);
        }
        Ok((NbtTag::Int(#[verifier::truncate] (read_u32(b, p) as i32)), p + 4))
    } else if id == 4 {
        if len - p < 8 {
            return Err(NbtError::Incomplete);
        }
        Ok((NbtTag::Long(#[verifier::truncate] (read_u64(b, p) as i64)), p + 8))
    } else if id == 5 {
        if len - p < 4 {
            return Err(NbtError::Incomplete);
        }
        Ok((NbtTag::Float(read_u32(b, p)), p + 4))
    } else if id == 6 {
        if len - p < 8 {
            return Err(NbtError::Incomplete);
        }
        Ok((NbtTag::Double(read_u64(b, p)), p + 8))
    } else if id == 7 {
        let n = read_len(b, p)?;
        if !fits(len, p, 4, n, 1) {
            return Err(NbtError::Incomplete);
        }
        let bytes = copy_bytes(b, p + 4, n);
        Ok((NbtTag::ByteArray(bytes), p + 4 + n))
    } else if id == 8 {
        let (s, q) = read_string(b, p)?;
        Ok((NbtTag::String(s), q))
    } else if id == 9 {
        if len - p < 1 {
            return Err(NbtError::Incomplete);
        }
        let n = read_len(b, p + 1)?;
        let (items, q) = read_list(b, p + 5, b[p], n)?;
        Ok((NbtTag::List(items), q))
    } else if id == 10 {
        let (c, q) = NbtCompound::deserialize_content(b, p)?;
        Ok((NbtTag::Compound(c), q))
    } else if id == 11 {
        let n = read_len(b, p)?;
        if !fits(len, p, 4, n, 4) {
            return Err(NbtError::Incomplete);
        }
        let ghost target = Seq::new(n as nat, |k: int| rd_i32(b@, p + 4 + 4 * k));
        let mut a: Vec<i32> = Vec::new();
        let mut k: usize = 0;
        while k < n
            invariant
                k <= n,
                len == b@.len(),
                p + 4 + n * 4 <= b@.len(),
                target == Seq::new(n as nat, |k: int| rd_i32(b@, p + 4 + 4 * k)),
                a@ == target.subrange(0, k as int),
            decreases n - k,
        {
            assert(p + 4 + 4 * k + 4 <= p + 4 + n * 4) by (nonlinear_arith)
                requires
                    k < n,
            ;
            a.push(#[verifier::truncate] (read_u32(b, p + 4 + 4 * k) as i32));
            k = k + 1;
            assert(a@ =~= target.subrange(0, k as int));
        }
        assert(a@ =~= target);
        Ok((NbtTag::IntArray(a), p + 4 + 4 * n))
    } else if id == 12 {
        let n = read_len(b, p)?;
        if !fits(len, p, 4, n, 8) {
            return Err(NbtError::Incomplete);
        }
        let ghost target = Seq::new(n as nat, |k: int| rd_i64(b@, p + 4 + 8 * k));
        let mut a: Vec<i64> = Vec::new();
        let mut k: usize = 0;
        while k < n
            invariant
                k <= n,
                len == b@.len(),
                p + 4 + n * 8 <= b@.len(),
                target == Seq::new(n as nat, |k: int| rd_i64(b@, p + 4 + 8 * k)),
                a@ == target.subrange(0, k as int),
            decreases n - k,
        {
            assert(p + 4 + 8 * k + 8 <= p + 4 + n * 8) by (nonlinear_arith)
                requires
                    k < n,
            ;
            a.push(#[verifier::truncate] (read_u64(b, p + 4 + 8 * k) as i64));
            k = k + 1;
            assert(a@ =~= target.subrange(0, k as int));
        }
        assert(a@ =~= target);
        Ok((NbtTag::LongArray(a), p + 4 + 8 * n))
    } else {
        Err(NbtError::UnknownTagId(id))
    }
}

/// Reads `n` payloads of type `id` from `p` on.
fn read_list(b: &[u8], p: usize, id: u8, n: usize) -> (r: Result<(Vec<NbtTag>, usize), NbtError>)
    requires
        p <= b@.len() + 4,
    ensures
        match parse_list(b@, p as int, id, n as nat) {
            Ok((vs, q)) => r matches Ok((items, q2)) && list_value(items@) == vs && q2 == q,
            Err(e) => r matches Err(e2) && e2 == e,
        },
    decreases b@.len() - p, 3int, n,
{
    let mut items: Vec<NbtTag> = Vec::new();
    if n == 0 {
        return Ok((items, p));
    }
    if p > b.len() {
        return Err(NbtError::Incomplete);
    }
    let mut pc: usize = p;
    let mut k: usize = 0;
    while k < n
        invariant
            0 < n,
            p <= pc <= b@.len(),
            k <= n,
            parse_list(b@, p as int, id, n as nat) == prepend_list(
                list_value(items@),
                parse_list(b@, pc as int, id, (n - k) as nat),
            ),
        decreases n - k,
    {
        let (item, q) = match read_payload(b, pc, id) {
            Ok(x) => x,
            Err(e) => {
                return Err(e);
            },
        };
        if q < pc || q > b.len() {
            return Err(NbtError::Incomplete);
        }
        let ghost before = list_value(items@);
        let ghost old_seq = items@;
        items.push(item);
        proof {
            assert(items@.drop_last() =~= old_seq);
            assert(items@.last() == item);
            assert(list_value(items@) == before.push(tag_value(item)));
            match parse_list(b@, q as int, id, (n - k - 1) as nat) {
                Ok((rest, s)) => {
                    assert(before + (seq![tag_value(item)] + rest) =~= before.push(tag_value(item))
                        + rest);
                },
                Err(_) => {},
            }
        }
        pc = q;
        k = k + 1;
    }
    proof {
        assert(list_value(items@) + Seq::<NbtValue>::empty() =~= list_value(items@));
    }
    Ok((items, pc))
}

impl NbtCompound {
    /// Reads named tags from `p` up to an End byte, or to the end of the
    /// input, putting each into a new compound.
    pub fn deserialize_content(b: &[u8], p: usize) -> (r: Result<(NbtCompound, usize), NbtError>)
        requires
            p <= b@.len(),
        ensures
            match parse_children(b@, p as int) {
                Ok((cs, q)) => r matches Ok((c, q2)) && c.value() == put_all(cs) && q2 == q,
                Err(e) => r matches Err(e2) && e2 == e,
            },
        decreases b@.len() - p, 1int, 0int,
    {
        let mut compound = NbtCompound::new();
        let ghost mut raw: Seq<(Seq<char>, NbtValue)> = Seq::empty();
        let mut pc: usize = p;
        loop
            invariant
                p <= pc <= b@.len(),
                compound.value() == put_all(raw),
                parse_children(b@, p as int) == prepend_children(raw, parse_children(b@, pc as int)),
            decreases b@.len() - pc,
        {
            if pc == b.len() {
                assert(raw + Seq::<(Seq<char>, NbtValue)>::empty() =~= raw);
                return Ok((compound, pc));
            }
            let id = b[pc];
            if id == 0 {
                assert(raw + Seq::<(Seq<char>, NbtValue)>::empty() =~= raw);
                return Ok((compound, pc + 1));
            }
            let (name, q) = match read_string(b, pc + 1) {
                Ok(x) => x,
                Err(e) => {
                    return Err(e);
                },
            };
            if q <= pc || q > b.len() {
                return Err(NbtError::Incomplete);
            }
            let (tag, r) = match read_payload(b, q, id) {
                Ok(x) => x,
                Err(e) => {
                    return Err(e);
                },
            };
            if r < q || r > b.len() {
                return Err(NbtError::Incomplete);
            }
            let ghost entry = (name@, tag_value(tag));
            compound.put_tag(name, tag);
            proof {
                assert(raw.push(entry).drop_last() =~= raw);
                match parse_children(b@, r as int) {
                    Ok((rest, s)) => {
                        assert(raw + (seq![entry] + rest) =~= raw.push(entry) + rest);
                    },
                    Err(_) => {},
                }
                raw = raw.push(entry);
            }
            pc = r;
        }
    }
}

impl NbtCompound {
    /// Skips named tags from `p` up to an End byte, or to the end of the
    /// input, and gives the position after them.
    pub fn skip_content(b: &[u8], p: usize) -> (r: Result<usize, NbtError>)
        requires
            p <= b@.len(),
        ensures
            match parse_children(b@, p as int) {
                Ok((_, q)) => r == Ok::<usize, NbtError>(q as usize),
                Err(e) => r == Err::<usize, NbtError>(e),
            },
    {
        match NbtCompound::deserialize_content(b, p) {
            Ok((_, q)) => Ok(q),
            Err(e) => Err(e),
        }
    }

    /// Writes the compound as a root tag with an empty name.
    pub fn write_root(&self, out: &mut Vec<u8>) -> (r: Result<(), NbtError>)
        ensures
            r is Ok <==> children_encodable(self.value()),
            r is Ok ==> final(out)@ == old(out)@ + root_bytes(self.value()),
    {
        out.push(10u8);
        out.push(0u8);
        out.push(0u8);
        let r = self.serialize_content(out);
        proof {
            if r is Ok {
                assert(final(out)@ =~= old(out)@ + root_bytes(self.value()));
            }
        }
        r
    }

    /// Reads a root compound; its name is read and dropped.
    pub fn read_root(b: &[u8]) -> (r: Result<NbtCompound, NbtError>)
        ensures
            match parse_root(b@) {
                Ok(cs) => r matches Ok(c) && c.value() == cs,
                Err(e) => r matches Err(e2) && e2 == e,
            },
    {
        if b.len() < 1 {
            return Err(NbtError::Incomplete);
        }
        if b[0] != 10 {
            return Err(NbtError::NoRootCompound(b[0]));
        }
        let (_, q) = read_string(b, 1)?;
        let (c, _) = NbtCompound::deserialize_content(b, q)?;
        Ok(c)
    }
}

} // verus!
