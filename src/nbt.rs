use vstd::prelude::*;
use vstd::string::StringSliceAdditionalSpecFns;
use vstd::utf8::encode_utf8;

verus! {

/// The tag ids of the NBT format.
pub const END_ID: u8 = 0;

pub const BYTE_ID: u8 = 1;

pub const SHORT_ID: u8 = 2;

pub const INT_ID: u8 = 3;

pub const LONG_ID: u8 = 4;

pub const FLOAT_ID: u8 = 5;

pub const DOUBLE_ID: u8 = 6;

pub const BYTE_ARRAY_ID: u8 = 7;

pub const STRING_ID: u8 = 8;

pub const LIST_ID: u8 = 9;

pub const COMPOUND_ID: u8 = 10;

pub const INT_ARRAY_ID: u8 = 11;

pub const LONG_ARRAY_ID: u8 = 12;

/// A tag of the NBT format. Floating-point payloads are held as their
/// IEEE-754 bits.
#[derive(Debug)]
pub enum NbtTag {
    End,
    Byte(i8),
    Short(i16),
    Int(i32),
    Long(i64),
    Float(u32),
    Double(u64),
    ByteArray(Vec<u8>),
    String(String),
    List(Vec<NbtTag>),
    Compound(NbtCompound),
    IntArray(Vec<i32>),
    LongArray(Vec<i64>),
}

/// Named tags in insertion order; a name is stored once, the first write wins.
#[derive(Debug)]
pub struct NbtCompound {
    pub child_tags: Vec<(String, NbtTag)>,
}

/// The value a tag stands for.
pub enum NbtValue {
    End,
    Byte(i8),
    Short(i16),
    Int(i32),
    Long(i64),
    Float(u32),
    Double(u64),
    ByteArray(Seq<u8>),
    String(Seq<char>),
    List(Seq<NbtValue>),
    Compound(Seq<(Seq<char>, NbtValue)>),
    IntArray(Seq<i32>),
    LongArray(Seq<i64>),
}

pub open spec fn tag_value(t: NbtTag) -> NbtValue
    decreases t,
{
    match t {
        NbtTag::End => NbtValue::End,
        NbtTag::Byte(v) => NbtValue::Byte(v),
        NbtTag::Short(v) => NbtValue::Short(v),
        NbtTag::Int(v) => NbtValue::Int(v),
        NbtTag::Long(v) => NbtValue::Long(v),
        NbtTag::Float(v) => NbtValue::Float(v),
        NbtTag::Double(v) => NbtValue::Double(v),
        NbtTag::ByteArray(v) => NbtValue::ByteArray(v@),
        NbtTag::String(s) => NbtValue::String(s@),
        NbtTag::List(items) => NbtValue::List(list_value(items@)),
        NbtTag::Compound(c) => NbtValue::Compound(children_value(c.child_tags@)),
        NbtTag::IntArray(v) => NbtValue::IntArray(v@),
        NbtTag::LongArray(v) => NbtValue::LongArray(v@),
    }
}

pub open spec fn list_value(items: Seq<NbtTag>) -> Seq<NbtValue>
    decreases items,
{
    if items.len() == 0 {
        Seq::empty()
    } else {
        list_value(items.drop_last()).push(tag_value(items.last()))
    }
}

pub open spec fn children_value(children: Seq<(String, NbtTag)>) -> Seq<(Seq<char>, NbtValue)>
    decreases children,
{
    if children.len() == 0 {
        Seq::empty()
    } else {
        children_value(children.drop_last()).push(
            (children.last().0@, tag_value(children.last().1)),
        )
    }
}

/// Big-endian bytes of unsigned numbers.
pub open spec fn be16(v: u16) -> Seq<u8> {
    seq![(v / 0x100) as u8, (v % 0x100) as u8]
}

pub open spec fn be32(v: u32) -> Seq<u8> {
    seq![
        (v / 0x100_0000) as u8,
        ((v / 0x1_0000) % 0x100) as u8,
        ((v / 0x100) % 0x100) as u8,
        (v % 0x100) as u8,
    ]
}

pub open spec fn be64(v: u64) -> Seq<u8> {
    be32((v / 0x1_0000_0000) as u32) + be32((v % 0x1_0000_0000) as u32)
}

/// Two's-complement bits of signed numbers.
pub open spec fn bits16(v: i16) -> u16 {
    #[verifier::truncate]
    (v as u16)
}

pub open spec fn bits32(v: i32) -> u32 {
    #[verifier::truncate]
    (v as u32)
}

pub open spec fn bits64(v: i64) -> u64 {
    #[verifier::truncate]
    (v as u64)
}

/// The type id of a value.
pub open spec fn type_id(v: NbtValue) -> u8 {
    match v {
        NbtValue::End => 0,
        NbtValue::Byte(_) => 1,
        NbtValue::Short(_) => 2,
        NbtValue::Int(_) => 3,
        NbtValue::Long(_) => 4,
        NbtValue::Float(_) => 5,
        NbtValue::Double(_) => 6,
        NbtValue::ByteArray(_) => 7,
        NbtValue::String(_) => 8,
        NbtValue::List(_) => 9,
        NbtValue::Compound(_) => 10,
        NbtValue::IntArray(_) => 11,
        NbtValue::LongArray(_) => 12,
    }
}

/// The element type a list is written with: its first element's, End when empty.
pub open spec fn list_elem_id(items: Seq<NbtValue>) -> u8 {
    if items.len() == 0 {
        0
    } else {
        type_id(items[0])
    }
}

/// A string: its UTF-8 length as u16, then the bytes.
pub open spec fn enc_string(s: Seq<char>) -> Seq<u8> {
    be16(encode_utf8(s).len() as u16) + encode_utf8(s)
}

pub open spec fn enc_ints(a: Seq<i32>) -> Seq<u8>
    decreases a.len(),
{
    if a.len() == 0 {
        Seq::empty()
    } else {
        enc_ints(a.drop_last()) + be32(bits32(a.last()))
    }
}

pub open spec fn enc_longs(a: Seq<i64>) -> Seq<u8>
    decreases a.len(),
{
    if a.len() == 0 {
        Seq::empty()
    } else {
        enc_longs(a.drop_last()) + be64(bits64(a.last()))
    }
}

/// The payload of a value, big-endian throughout.
pub open spec fn enc_payload(v: NbtValue) -> Seq<u8>
    decreases v,
{
    match v {
        NbtValue::End => Seq::empty(),
        NbtValue::Byte(b) => seq![#[verifier::truncate] (b as u8)],
        NbtValue::Short(x) => be16(bits16(x)),
        NbtValue::Int(x) => be32(bits32(x)),
        NbtValue::Long(x) => be64(bits64(x)),
        NbtValue::Float(x) => be32(x),
        NbtValue::Double(x) => be64(x),
        NbtValue::ByteArray(a) => be32(a.len() as u32) + a,
        NbtValue::String(s) => enc_string(s),
        NbtValue::List(items) => seq![list_elem_id(items)] + be32(items.len() as u32) + enc_items(
            items,
        ),
        NbtValue::Compound(children) => enc_children(children) + seq![0u8],
        NbtValue::IntArray(a) => be32(a.len() as u32) + enc_ints(a),
        NbtValue::LongArray(a) => be32(a.len() as u32) + enc_longs(a),
    }
}

/// The payloads of list elements, one after another.
pub open spec fn enc_items(items: Seq<NbtValue>) -> Seq<u8>
    decreases items,
{
    if items.len() == 0 {
        Seq::empty()
    } else {
        enc_items(items.drop_last()) + enc_payload(items.last())
    }
}

/// Named tags: type id, name, payload each.
pub open spec fn enc_children(children: Seq<(Seq<char>, NbtValue)>) -> Seq<u8>
    decreases children,
{
    if children.len() == 0 {
        Seq::empty()
    } else {
        enc_children(children.drop_last()) + (seq![type_id(children.last().1)] + enc_string(
            children.last().0,
        ) + enc_payload(children.last().1))
    }
}

/// A value whose lengths fit their fields: strings of at most 65535 bytes,
/// arrays and lists of at most `i32::MAX` elements.
pub open spec fn encodable(v: NbtValue) -> bool
    decreases v,
{
    match v {
        NbtValue::ByteArray(a) => a.len() <= i32::MAX,
        NbtValue::String(s) => encode_utf8(s).len() <= u16::MAX,
        NbtValue::List(items) => items.len() <= i32::MAX && items_encodable(items),
        NbtValue::Compound(children) => children_encodable(children),
        NbtValue::IntArray(a) => a.len() <= i32::MAX,
        NbtValue::LongArray(a) => a.len() <= i32::MAX,
        _ => true,
    }
}

pub open spec fn items_encodable(items: Seq<NbtValue>) -> bool
    decreases items,
{
    if items.len() == 0 {
        true
    } else {
        items_encodable(items.drop_last()) && encodable(items.last())
    }
}

pub open spec fn children_encodable(children: Seq<(Seq<char>, NbtValue)>) -> bool
    decreases children,
{
    if children.len() == 0 {
        true
    } else {
        children_encodable(children.drop_last()) && encode_utf8(children.last().0).len()
            <= u16::MAX && encodable(children.last().1)
    }
}

/// Why encoding or decoding failed.
#[derive(Clone, Copy, Debug, PartialEq, Eq, Structural)]
pub enum NbtError {
    /// The input ended inside a value.
    Incomplete,
    /// A type id outside 0..=12.
    UnknownTagId(u8),
    /// A string that is not UTF-8.
    InvalidUtf8,
    /// A length that does not fit its field.
    TooLong,
    /// A negative length field.
    NegativeLength,
    /// A root tag that is not a compound.
    NoRootCompound(u8),
}

fn write_u16(out: &mut Vec<u8>, v: u16)
    ensures
        final(out)@ == old(out)@ + be16(v),
{
    out.push((v / 0x100) as u8);
    out.push((v % 0x100) as u8);
    assert(final(out)@ =~= old(out)@ + be16(v));
}

fn write_u32(out: &mut Vec<u8>, v: u32)
    ensures
        final(out)@ == old(out)@ + be32(v),
{
    out.push((v / 0x100_0000) as u8);
    out.push(((v / 0x1_0000) % 0x100) as u8);
    out.push(((v / 0x100) % 0x100) as u8);
    out.push((v % 0x100) as u8);
    assert(final(out)@ =~= old(out)@ + be32(v));
}

fn write_u64(out: &mut Vec<u8>, v: u64)
    ensures
        final(out)@ == old(out)@ + be64(v),
{
    write_u32(out, (v / 0x1_0000_0000) as u32);
    write_u32(out, (v % 0x1_0000_0000) as u32);
    assert(final(out)@ =~= old(out)@ + be64(v));
}

fn write_bytes(out: &mut Vec<u8>, b: &[u8])
    ensures
        final(out)@ == old(out)@ + b@,
{
    let mut i: usize = 0;
    while i < b.len()
        invariant
            i <= b@.len(),
            out@ == old(out)@ + b@.subrange(0, i as int),
        decreases b@.len() - i,
    {
        out.push(b[i]);
        i = i + 1;
        assert(out@ =~= old(out)@ + b@.subrange(0, i as int));
    }
    assert(b@.subrange(0, b@.len() as int) =~= b@);
}

/// Writes a string with its u16 length; fails when it is longer than 65535 bytes.
fn write_string(out: &mut Vec<u8>, s: &String) -> (r: Result<(), NbtError>)
    ensures
        r is Ok <==> encode_utf8(s@).len() <= u16::MAX,
        r is Ok ==> final(out)@ == old(out)@ + enc_string(s@),
{
    let bytes = s.as_str().as_bytes();
    if bytes.len() > 65535 {
        return Err(NbtError::TooLong);
    }
    write_u16(out, bytes.len() as u16);
    write_bytes(out, bytes);
    assert(final(out)@ =~= old(out)@ + enc_string(s@));
    Ok(())
}

pub(crate) proof fn lemma_list_value(items: Seq<NbtTag>)
    ensures
        list_value(items).len() == items.len(),
        forall|i: int| 0 <= i < items.len() ==> #[trigger] list_value(items)[i] == tag_value(items[i]),
    decreases items.len(),
{
    if items.len() > 0 {
        lemma_list_value(items.drop_last());
    }
}

pub(crate) proof fn lemma_children_value(children: Seq<(String, NbtTag)>)
    ensures
        children_value(children).len() == children.len(),
        forall|i: int|
            0 <= i < children.len() ==> #[trigger] children_value(children)[i] == (
            children[i].0@,
            tag_value(children[i].1),
        ),
    decreases children.len(),
{
    if children.len() > 0 {
        lemma_children_value(children.drop_last());
    }
}

proof fn lemma_items_encodable(items: Seq<NbtValue>)
    ensures
        items_encodable(items) <==> forall|i: int|
            0 <= i < items.len() ==> encodable(#[trigger] items[i]),
    decreases items.len(),
{
    if items.len() > 0 {
        let d = items.drop_last();
        lemma_items_encodable(d);
        assert(items.last() == items[items.len() - 1]);
        if items_encodable(items) {
            assert forall|i: int| 0 <= i < items.len() implies encodable(#[trigger] items[i]) by {
                if i < items.len() - 1 {
                    assert(d[i] == items[i]);
                }
            }
        }
        if forall|i: int| 0 <= i < items.len() ==> encodable(#[trigger] items[i]) {
            assert forall|i: int| 0 <= i < d.len() implies encodable(#[trigger] d[i]) by {
                assert(d[i] == items[i]);
            }
        }
    }
}

proof fn lemma_children_encodable(children: Seq<(Seq<char>, NbtValue)>)
    ensures
        children_encodable(children) <==> forall|i: int|
            0 <= i < children.len() ==> encode_utf8(#[trigger] children[i].0).len() <= u16::MAX
                && encodable(children[i].1),
    decreases children.len(),
{
    if children.len() > 0 {
        let d = children.drop_last();
        lemma_children_encodable(d);
        assert(children.last() == children[children.len() - 1]);
        if children_encodable(children) {
            assert forall|i: int| 0 <= i < children.len() implies encode_utf8(
                #[trigger] children[i].0,
            ).len() <= u16::MAX && encodable(children[i].1) by {
                if i < children.len() - 1 {
                    assert(d[i] == children[i]);
                }
            }
        }
        if forall|i: int|
            0 <= i < children.len() ==> encode_utf8(#[trigger] children[i].0).len() <= u16::MAX
                && encodable(children[i].1) {
            assert forall|i: int| 0 <= i < d.len() implies encode_utf8(#[trigger] d[i].0).len()
                <= u16::MAX && encodable(d[i].1) by {
                assert(d[i] == children[i]);
            }
        }
    }
}

proof fn lemma_child_encodable(children: Seq<(Seq<char>, NbtValue)>, i: int)
    requires
        children_encodable(children),
        0 <= i < children.len(),
    ensures
        encode_utf8(children[i].0).len() <= u16::MAX,
        encodable(children[i].1),
    decreases children.len(),
{
    if i < children.len() - 1 {
        lemma_child_encodable(children.drop_last(), i);
        assert(children.drop_last()[i] == children[i]);
    }
}

proof fn lemma_enc_items_step(items: Seq<NbtValue>, i: int)
    requires
        0 <= i < items.len(),
    ensures
        enc_items(items.subrange(0, i + 1)) == enc_items(items.subrange(0, i)) + enc_payload(
            items[i],
        ),
{
    assert(items.subrange(0, i + 1).drop_last() =~= items.subrange(0, i));
}

proof fn lemma_enc_children_step(children: Seq<(Seq<char>, NbtValue)>, i: int)
    requires
        0 <= i < children.len(),
    ensures
        enc_children(children.subrange(0, i + 1)) == enc_children(children.subrange(0, i)) + (
        seq![type_id(children[i].1)] + enc_string(children[i].0) + enc_payload(children[i].1)),
{
    assert(children.subrange(0, i + 1).drop_last() =~= children.subrange(0, i));
}

impl NbtTag {
    /// The type id of the tag.
    pub fn get_type_id(&self) -> (r: u8)
        ensures
            r == type_id(tag_value(*self)),
    {
        match self {
            NbtTag::End => END_ID,
            NbtTag::Byte(_) => BYTE_ID,
            NbtTag::Short(_) => SHORT_ID,
            NbtTag::Int(_) => INT_ID,
            NbtTag::Long(_) => LONG_ID,
            NbtTag::Float(_) => FLOAT_ID,
            NbtTag::Double(_) => DOUBLE_ID,
            NbtTag::ByteArray(_) => BYTE_ARRAY_ID,
            NbtTag::String(_) => STRING_ID,
            NbtTag::List(_) => LIST_ID,
            NbtTag::Compound(_) => COMPOUND_ID,
            NbtTag::IntArray(_) => INT_ARRAY_ID,
            NbtTag::LongArray(_) => LONG_ARRAY_ID,
        }
    }

    /// Appends the tag's payload; fails when a length does not fit its field.
    pub fn serialize_data(&self, out: &mut Vec<u8>) -> (r: Result<(), NbtError>)
        ensures
            r is Ok <==> encodable(tag_value(*self)),
            r is Ok ==> final(out)@ == old(out)@ + enc_payload(tag_value(*self)),
        decreases self,
    {
        match self {
            NbtTag::End => {
                assert(final(out)@ =~= old(out)@ + enc_payload(tag_value(*self)));
                Ok(())
            },
            NbtTag::Byte(b) => {
                out.push(#[verifier::truncate] (*b as u8));
                assert(final(out)@ =~= old(out)@ + enc_payload(tag_value(*self)));
                Ok(())
            },
            NbtTag::Short(x) => {
                write_u16(out, #[verifier::truncate] (*x as u16));
                Ok(())
            },
            NbtTag::Int(x) => {
                write_u32(out, #[verifier::truncate] (*x as u32));
                Ok(())
            },
            NbtTag::Long(x) => {
                write_u64(out, #[verifier::truncate] (*x as u64));
                Ok(())
            },
            NbtTag::Float(x) => {
                write_u32(out, *x);
                Ok(())
            },
            NbtTag::Double(x) => {
                write_u64(out, *x);
                Ok(())
            },
            NbtTag::ByteArray(a) => write_byte_array(out, a),
            NbtTag::String(s) => write_string(out, s),
            NbtTag::List(items) => write_list(items, out),
            NbtTag::Compound(c) => c.serialize_content(out),
            NbtTag::IntArray(a) => write_int_array(out, a),
            NbtTag::LongArray(a) => write_long_array(out, a),
        }
    }
}

fn write_byte_array(out: &mut Vec<u8>, a: &Vec<u8>) -> (r: Result<(), NbtError>)
    ensures
        r is Ok <==> encodable(NbtValue::ByteArray(a@)),
        r is Ok ==> final(out)@ == old(out)@ + enc_payload(NbtValue::ByteArray(a@)),
{
    if a.len() > 0x7FFF_FFFF {
        return Err(NbtError::TooLong);
    }
    write_u32(out, a.len() as u32);
    write_bytes(out, a.as_slice());
    assert(final(out)@ =~= old(out)@ + enc_payload(NbtValue::ByteArray(a@)));
    Ok(())
}

fn write_int_array(out: &mut Vec<u8>, a: &Vec<i32>) -> (r: Result<(), NbtError>)
    ensures
        r is Ok <==> encodable(NbtValue::IntArray(a@)),
        r is Ok ==> final(out)@ == old(out)@ + enc_payload(NbtValue::IntArray(a@)),
{
    if a.len() > 0x7FFF_FFFF {
        return Err(NbtError::TooLong);
    }
    write_u32(out, a.len() as u32);
    let ghost start = out@;
    let mut i: usize = 0;
    while i < a.len()
        invariant
            i <= a@.len(),
            out@ == start + enc_ints(a@.subrange(0, i as int)),
        decreases a@.len() - i,
    {
        write_u32(out, #[verifier::truncate] (a[i] as u32));
        proof {
            assert(a@.subrange(0, i + 1).drop_last() =~= a@.subrange(0, i as int));
        }
        i = i + 1;
    }
    assert(a@.subrange(0, a@.len() as int) =~= a@);
    assert(final(out)@ =~= old(out)@ + enc_payload(NbtValue::IntArray(a@)));
    Ok(())
}

fn write_long_array(out: &mut Vec<u8>, a: &Vec<i64>) -> (r: Result<(), NbtError>)
    ensures
        r is Ok <==> encodable(NbtValue::LongArray(a@)),
        r is Ok ==> final(out)@ == old(out)@ + enc_payload(NbtValue::LongArray(a@)),
{
    if a.len() > 0x7FFF_FFFF {
        return Err(NbtError::TooLong);
    }
    write_u32(out, a.len() as u32);
    let ghost start = out@;
    let mut i: usize = 0;
    while i < a.len()
        invariant
            i <= a@.len(),
            out@ == start + enc_longs(a@.subrange(0, i as int)),
        decreases a@.len() - i,
    {
        write_u64(out, #[verifier::truncate] (a[i] as u64));
        proof {
            assert(a@.subrange(0, i + 1).drop_last() =~= a@.subrange(0, i as int));
        }
        i = i + 1;
    }
    assert(a@.subrange(0, a@.len() as int) =~= a@);
    assert(final(out)@ =~= old(out)@ + enc_payload(NbtValue::LongArray(a@)));
    Ok(())
}

/// Appends a list: element type, length and payloads.
fn write_list(items: &Vec<NbtTag>, out: &mut Vec<u8>) -> (r: Result<(), NbtError>)
    ensures
        r is Ok <==> encodable(NbtValue::List(list_value(items@))),
        r is Ok ==> final(out)@ == old(out)@ + enc_payload(NbtValue::List(list_value(items@))),
    decreases items,
{
    let ghost vs = list_value(items@);
    proof {
        lemma_list_value(items@);
        lemma_items_encodable(vs);
    }
    if items.len() > 0x7FFF_FFFF {
        return Err(NbtError::TooLong);
    }
    let elem_id = if items.len() == 0 {
        END_ID
    } else {
        items[0].get_type_id()
    };
    out.push(elem_id);
    write_u32(out, items.len() as u32);
    let ghost start = out@;
    let mut i: usize = 0;
    while i < items.len()
        invariant
            i <= items@.len(),
            vs == list_value(items@),
            vs.len() == items@.len(),
            forall|k: int| 0 <= k < items@.len() ==> #[trigger] vs[k] == tag_value(items@[k]),
            forall|k: int| 0 <= k < i ==> encodable(#[trigger] vs[k]),
            out@ == start + enc_items(vs.subrange(0, i as int)),
        decreases items@.len() - i,
    {
        let item = &items[i];
        proof {
            vstd::std_specs::vec::axiom_vec_index_decreases(*items, i as int);
        }
        match item.serialize_data(out) {
            Ok(()) => {},
            Err(e) => {
                assert(vs[i as int] == tag_value(items@[i as int]));
                assert(!encodable(vs[i as int]));
                proof {
                    lemma_items_encodable(vs);
                }
                return Err(e);
            },
        }
        proof {
            lemma_enc_items_step(vs, i as int);
        }
        i = i + 1;
    }
    assert(vs.subrange(0, vs.len() as int) =~= vs);
    assert(final(out)@ =~= old(out)@ + enc_payload(NbtValue::List(vs)));
    Ok(())
}

impl NbtCompound {
    /// The named values of the compound, in order.
    pub open spec fn value(&self) -> Seq<(Seq<char>, NbtValue)> {
        children_value(self.child_tags@)
    }

    /// Appends the named tags and the closing End byte; fails when a length
    /// does not fit its field.
    pub fn serialize_content(&self, out: &mut Vec<u8>) -> (r: Result<(), NbtError>)
        ensures
            r is Ok <==> children_encodable(self.value()),
            r is Ok ==> final(out)@ == old(out)@ + enc_children(self.value()) + seq![0u8],
        decreases self,
    {
        let ghost cs = self.value();
        proof {
            lemma_children_value(self.child_tags@);
            lemma_children_encodable(cs);
        }
        let ghost start = out@;
        let mut i: usize = 0;
        while i < self.child_tags.len()
            invariant
                i <= self.child_tags@.len(),
                cs == self.value(),
                cs.len() == self.child_tags@.len(),
                forall|k: int|
                    0 <= k < self.child_tags@.len() ==> #[trigger] cs[k] == (
                    self.child_tags@[k].0@,
                    tag_value(self.child_tags@[k].1),
                ),
                forall|k: int|
                    0 <= k < i ==> encode_utf8(#[trigger] cs[k].0).len() <= u16::MAX && encodable(
                        cs[k].1,
                    ),
                out@ == start + enc_children(cs.subrange(0, i as int)),
            decreases self.child_tags@.len() - i,
        {
            let child = &self.child_tags[i];
            proof {
                vstd::std_specs::vec::axiom_vec_index_decreases(self.child_tags, i as int);
            }
            out.push(child.1.get_type_id());
            match write_string(out, &child.0) {
                Ok(()) => {},
                Err(e) => {
                    assert(cs[i as int].0 == self.child_tags@[i as int].0@);
                    proof {
                        lemma_children_encodable(cs);
                    }
                    return Err(e);
                },
            }
            match child.1.serialize_data(out) {
                Ok(()) => {},
                Err(e) => {
                    assert(cs[i as int].1 == tag_value(self.child_tags@[i as int].1));
                    proof {
                        lemma_children_encodable(cs);
                        assert(!(encode_utf8(cs[i as int].0).len() <= u16::MAX && encodable(
                            cs[i as int].1,
                        )));
                        if children_encodable(cs) {
                            lemma_child_encodable(cs, i as int);
                        }
                    }
                    return Err(e);
                },
            }
            proof {
                lemma_enc_children_step(cs, i as int);
                assert(out@ =~= start + enc_children(cs.subrange(0, i + 1)));
            }
            i = i + 1;
        }
        out.push(END_ID);
        assert(cs.subrange(0, cs.len() as int) =~= cs);
        Ok(())
    }
}

/// Whether a compound already has a tag of this name.
pub open spec fn has_name(cs: Seq<(Seq<char>, NbtValue)>, name: Seq<char>) -> bool {
    exists|i: int| 0 <= i < cs.len() && cs[i].0 == name
}

fn same_string(a: &String, b: &String) -> (r: bool)
    ensures
        r == (a@ == b@),
{
    a.eq(b)
}

impl NbtCompound {
    pub fn new() -> (r: NbtCompound)
        ensures
            r.value() == Seq::<(Seq<char>, NbtValue)>::empty(),
    {
        NbtCompound { child_tags: Vec::new() }
    }

    pub fn is_empty(&self) -> (r: bool)
        ensures
            r == (self.value().len() == 0),
    {
        proof {
            lemma_children_value(self.child_tags@);
        }
        self.child_tags.len() == 0
    }

    /// The index of the tag named `name`, if there is one.
    fn find(&self, name: &String) -> (r: Option<usize>)
        ensures
            r matches Some(i) ==> i < self.value().len() && self.value()[i as int].0 == name@ && (
            forall|j: int| 0 <= j < i ==> self.value()[j].0 != name@),
            r is None ==> !has_name(self.value(), name@),
    {
        proof {
            lemma_children_value(self.child_tags@);
        }
        let mut i: usize = 0;
        while i < self.child_tags.len()
            invariant
                i <= self.child_tags@.len(),
                self.value().len() == self.child_tags@.len(),
                forall|k: int|
                    0 <= k < self.child_tags@.len() ==> #[trigger] self.value()[k] == (
                    self.child_tags@[k].0@,
                    tag_value(self.child_tags@[k].1),
                ),
                forall|j: int| 0 <= j < i ==> self.value()[j].0 != name@,
            decreases self.child_tags@.len() - i,
        {
            if same_string(&self.child_tags[i].0, name) {
                return Some(i);
            }
            i = i + 1;
        }
        None
    }

    /// Adds `value` under `name` unless the name is taken: the first write wins.
    pub fn put_tag(&mut self, name: String, value: NbtTag)
        ensures
            final(self).value() == (if has_name(old(self).value(), name@) {
                old(self).value()
            } else {
                old(self).value().push((name@, tag_value(value)))
            }),
    {
        if self.find(&name).is_none() {
            let ghost before = self.child_tags@;
            self.child_tags.push((name, value));
            proof {
                assert(self.child_tags@.drop_last() =~= before);
            }
        }
    }
}

/// The value of the first tag named `name`.
pub open spec fn lookup(cs: Seq<(Seq<char>, NbtValue)>, name: Seq<char>) -> Option<NbtValue>
    decreases cs.len(),
{
    if cs.len() == 0 {
        None
    } else if cs[0].0 == name {
        Some(cs[0].1)
    } else {
        lookup(cs.drop_first(), name)
    }
}

proof fn lemma_lookup_at(cs: Seq<(Seq<char>, NbtValue)>, name: Seq<char>, i: int)
    requires
        0 <= i < cs.len(),
        cs[i].0 == name,
        forall|j: int| 0 <= j < i ==> cs[j].0 != name,
    ensures
        lookup(cs, name) == Some(cs[i].1),
    decreases cs.len(),
{
    if i > 0 {
        assert(cs[0].0 != name);
        lemma_lookup_at(cs.drop_first(), name, i - 1);
    }
}

proof fn lemma_lookup_absent(cs: Seq<(Seq<char>, NbtValue)>, name: Seq<char>)
    requires
        !has_name(cs, name),
    ensures
        lookup(cs, name) is None,
    decreases cs.len(),
{
    if cs.len() > 0 {
        assert(cs[0].0 != name);
        if has_name(cs.drop_first(), name) {
            let i = choose|i: int| 0 <= i < cs.drop_first().len() && cs.drop_first()[i].0 == name;
            assert(cs[i + 1].0 == name);
        }
        lemma_lookup_absent(cs.drop_first(), name);
    }
}

impl NbtCompound {
    /// Adds `value` under `name` unless the name is taken: the first write wins.
    pub fn put(&mut self, name: &str, value: NbtTag)
        ensures
            final(self).value() == (if has_name(old(self).value(), name@) {
                old(self).value()
            } else {
                old(self).value().push((name@, tag_value(value)))
            }),
    {
        self.put_tag(name.to_owned(), value);
    }

    pub fn put_string(&mut self, name: &str, value: String)
        ensures
            final(self).value() == (if has_name(old(self).value(), name@) {
                old(self).value()
            } else {
                old(self).value().push((name@, NbtValue::String(value@)))
            }),
    {
        self.put(name, NbtTag::String(value));
    }

    pub fn put_list(&mut self, name: &str, value: Vec<NbtTag>)
        ensures
            final(self).value() == (if has_name(old(self).value(), name@) {
                old(self).value()
            } else {
                old(self).value().push((name@, NbtValue::List(list_value(value@))))
            }),
    {
        self.put(name, NbtTag::List(value));
    }

    pub fn put_byte(&mut self, name: &str, value: i8)
        ensures
            final(self).value() == (if has_name(old(self).value(), name@) {
                old(self).value()
            } else {
                old(self).value().push((name@, NbtValue::Byte(value)))
            }),
    {
        self.put(name, NbtTag::Byte(value));
    }

    /// A boolean is stored as the byte 1 or 0.
    pub fn put_bool(&mut self, name: &str, value: bool)
        ensures
            final(self).value() == (if has_name(old(self).value(), name@) {
                old(self).value()
            } else {
                old(self).value().push(
                    (name@, NbtValue::Byte(if value {
                        1i8
                    } else {
                        0i8
                    })),
                )
            }),
    {
        self.put(
            name,
            NbtTag::Byte(
                if value {
                    1
                } else {
                    0
                },
            ),
        );
    }

    pub fn put_short(&mut self, name: &str, value: i16)
        ensures
            final(self).value() == (if has_name(old(self).value(), name@) {
                old(self).value()
            } else {
                old(self).value().push((name@, NbtValue::Short(value)))
            }),
    {
        self.put(name, NbtTag::Short(value));
    }

    pub fn put_int(&mut self, name: &str, value: i32)
        ensures
            final(self).value() == (if has_name(old(self).value(), name@) {
                old(self).value()
            } else {
                old(self).value().push((name@, NbtValue::Int(value)))
            }),
    {
        self.put(name, NbtTag::Int(value));
    }

    pub fn put_long(&mut self, name: &str, value: i64)
        ensures
            final(self).value() == (if has_name(old(self).value(), name@) {
                old(self).value()
            } else {
                old(self).value().push((name@, NbtValue::Long(value)))
            }),
    {
        self.put(name, NbtTag::Long(value));
    }

    pub fn put_component(&mut self, name: &str, value: NbtCompound)
        ensures
            final(self).value() == (if has_name(old(self).value(), name@) {
                old(self).value()
            } else {
                old(self).value().push((name@, NbtValue::Compound(value.value())))
            }),
    {
        self.put(name, NbtTag::Compound(value));
    }

    /// The first tag named `name`.
    pub fn get(&self, name: &str) -> (r: Option<&NbtTag>)
        ensures
            match lookup(self.value(), name@) {
                Some(v) => r matches Some(t) && tag_value(*t) == v,
                None => r is None,
            },
    {
        proof {
            lemma_children_value(self.child_tags@);
        }
        let key = name.to_owned();
        match self.find(&key) {
            Some(i) => {
                proof {
                    lemma_lookup_at(self.value(), name@, i as int);
                }
                Some(&self.child_tags[i].1)
            },
            None => {
                proof {
                    lemma_lookup_absent(self.value(), name@);
                }
                None
            },
        }
    }

    pub fn get_byte(&self, name: &str) -> (r: Option<i8>)
        ensures
            r == (match lookup(self.value(), name@) {
                Some(NbtValue::Byte(x)) => Some(x),
                _ => None,
            }),
    {
        match self.get(name) {
            Some(NbtTag::Byte(x)) => Some(*x),
            _ => None,
        }
    }

    pub fn get_short(&self, name: &str) -> (r: Option<i16>)
        ensures
            r == (match lookup(self.value(), name@) {
                Some(NbtValue::Short(x)) => Some(x),
                _ => None,
            }),
    {
        match self.get(name) {
            Some(NbtTag::Short(x)) => Some(*x),
            _ => None,
        }
    }

    pub fn get_int(&self, name: &str) -> (r: Option<i32>)
        ensures
            r == (match lookup(self.value(), name@) {
                Some(NbtValue::Int(x)) => Some(x),
                _ => None,
            }),
    {
        match self.get(name) {
            Some(NbtTag::Int(x)) => Some(*x),
            _ => None,
        }
    }

    pub fn get_long(&self, name: &str) -> (r: Option<i64>)
        ensures
            r == (match lookup(self.value(), name@) {
                Some(NbtValue::Long(x)) => Some(x),
                _ => None,
            }),
    {
        match self.get(name) {
            Some(NbtTag::Long(x)) => Some(*x),
            _ => None,
        }
    }

    /// A byte read as a boolean: any value but 0 is true.
    pub fn get_bool(&self, name: &str) -> (r: Option<bool>)
        ensures
            r == (match lookup(self.value(), name@) {
                Some(NbtValue::Byte(x)) => Some(x != 0),
                _ => None,
            }),
    {
        match self.get(name) {
            Some(NbtTag::Byte(x)) => Some(*x != 0),
            _ => None,
        }
    }

    pub fn get_string(&self, name: &str) -> (r: Option<&str>)
        ensures
            match lookup(self.value(), name@) {
                Some(NbtValue::String(s)) => r matches Some(t) && t@ == s,
                _ => r is None,
            },
    {
        match self.get(name) {
            Some(NbtTag::String(s)) => Some(s.as_str()),
            _ => None,
        }
    }

    pub fn get_list(&self, name: &str) -> (r: Option<&[NbtTag]>)
        ensures
            match lookup(self.value(), name@) {
                Some(NbtValue::List(items)) => r matches Some(t) && list_value(t@) == items,
                _ => r is None,
            },
    {
        match self.get(name) {
            Some(NbtTag::List(items)) => Some(items.as_slice()),
            _ => None,
        }
    }

    pub fn get_compound(&self, name: &str) -> (r: Option<&NbtCompound>)
        ensures
            match lookup(self.value(), name@) {
                Some(NbtValue::Compound(cs)) => r matches Some(c) && c.value() == cs,
                _ => r is None,
            },
    {
        match self.get(name) {
            Some(NbtTag::Compound(c)) => Some(c),
            _ => None,
        }
    }

    pub fn get_int_array(&self, name: &str) -> (r: Option<&[i32]>)
        ensures
            match lookup(self.value(), name@) {
                Some(NbtValue::IntArray(a)) => r matches Some(t) && t@ == a,
                _ => r is None,
            },
    {
        match self.get(name) {
            Some(NbtTag::IntArray(a)) => Some(a.as_slice()),
            _ => None,
        }
    }

    pub fn get_long_array(&self, name: &str) -> (r: Option<&[i64]>)
        ensures
            match lookup(self.value(), name@) {
                Some(NbtValue::LongArray(a)) => r matches Some(t) && t@ == a,
                _ => r is None,
            },
    {
        match self.get(name) {
            Some(NbtTag::LongArray(a)) => Some(a.as_slice()),
            _ => None,
        }
    }
}

} // verus!
