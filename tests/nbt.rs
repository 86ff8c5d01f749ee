use pumpkin_core::{NbtCompound, NbtError, NbtTag, read_payload};

fn sample() -> NbtCompound {
    let mut c = NbtCompound::new();
    c.put_int("x", 7);
    c.put_list("l", vec![NbtTag::Byte(1), NbtTag::Byte(2)]);
    c
}

#[test]
fn nbt_bytes() {
    let mut out = Vec::new();
    sample().write_root(&mut out).unwrap();
    assert_eq!(
        out,
        vec![
            0x0A, 0x00, 0x00, 0x03, 0x00, 0x01, 0x78, 0x00, 0x00, 0x00, 0x07, 0x09, 0x00, 0x01,
            0x6C, 0x01, 0x00, 0x00, 0x00, 0x02, 0x01, 0x02, 0x00
        ]
    );
}

#[test]
fn nbt_round_trip_keeps_order() {
    let mut c = NbtCompound::new();
    c.put_string("zeta", "last letter".to_string());
    c.put_long("alpha", -5_000_000_000);
    c.put_short("mid", -2);
    c.put_bool("flag", true);
    let mut inner = NbtCompound::new();
    inner.put_byte("b", -1);
    c.put_component("inner", inner);
    c.put("ints", NbtTag::IntArray(vec![1, -1, i32::MAX]));
    c.put("longs", NbtTag::LongArray(vec![i64::MIN, 0]));
    c.put("bytes", NbtTag::ByteArray(vec![0, 255]));
    c.put("f", NbtTag::Float(1.5f32.to_bits()));
    c.put("d", NbtTag::Double((-0.25f64).to_bits()));
    c.put("empty", NbtTag::List(vec![]));
    let mut out = Vec::new();
    c.write_root(&mut out).unwrap();
    let back = NbtCompound::read_root(&out).unwrap();
    let names: Vec<&str> = back.child_tags.iter().map(|(n, _)| n.as_str()).collect();
    assert_eq!(
        names,
        vec!["zeta", "alpha", "mid", "flag", "inner", "ints", "longs", "bytes", "f", "d", "empty"]
    );
    assert_eq!(back.get_string("zeta"), Some("last letter"));
    assert_eq!(back.get_long("alpha"), Some(-5_000_000_000));
    assert_eq!(back.get_short("mid"), Some(-2));
    assert_eq!(back.get_bool("flag"), Some(true));
    assert_eq!(back.get_compound("inner").and_then(|i| i.get_byte("b")), Some(-1));
    assert_eq!(back.get_int_array("ints"), Some(&[1, -1, i32::MAX][..]));
    assert_eq!(back.get_long_array("longs"), Some(&[i64::MIN, 0][..]));
    assert!(matches!(back.get("bytes"), Some(NbtTag::ByteArray(b)) if b == &vec![0u8, 255]));
    assert!(matches!(back.get("f"), Some(NbtTag::Float(bits)) if f32::from_bits(*bits) == 1.5));
    assert!(matches!(back.get("d"), Some(NbtTag::Double(bits)) if f64::from_bits(*bits) == -0.25));
    assert_eq!(back.get_list("empty").map(|l| l.len()), Some(0));
    let mut again = Vec::new();
    back.write_root(&mut again).unwrap();
    assert_eq!(again, out);
}

#[test]
fn put_first_write_wins() {
    let mut c = NbtCompound::new();
    c.put_int("a", 1);
    c.put_int("a", 2);
    assert_eq!(c.get_int("a"), Some(1));
    assert_eq!(c.child_tags.len(), 1);
    assert!(!c.is_empty());
    assert!(NbtCompound::new().is_empty());
}

#[test]
fn getters_check_the_type() {
    let c = sample();
    assert_eq!(c.get_int("x"), Some(7));
    assert_eq!(c.get_long("x"), None);
    assert_eq!(c.get_int("missing"), None);
    assert_eq!(c.get_list("l").map(|l| l.len()), Some(2));
}

#[test]
fn eof_ends_a_compound() {
    // a compound cut after its first child reads as that child alone
    let bytes = [0x03u8, 0x00, 0x01, 0x78, 0x00, 0x00, 0x00, 0x07];
    let (c, end) = NbtCompound::deserialize_content(&bytes, 0).unwrap();
    assert_eq!(end, 8);
    assert_eq!(c.get_int("x"), Some(7));
    assert_eq!(NbtCompound::skip_content(&bytes, 0), Ok(8));
}

#[test]
fn short_reads_fail() {
    let bytes = [0x03u8, 0x00, 0x01, 0x78, 0x00, 0x00];
    assert!(matches!(NbtCompound::deserialize_content(&bytes, 0), Err(NbtError::Incomplete)));
    assert!(matches!(read_payload(&[0x00, 0x01], 0, 3), Err(NbtError::Incomplete)));
}

#[test]
fn bad_input_errors() {
    assert!(matches!(read_payload(&[], 0, 13), Err(NbtError::UnknownTagId(13))));
    assert!(matches!(read_payload(&[0xFF, 0xFF, 0xFF, 0xFF], 0, 7), Err(NbtError::NegativeLength)));
    assert!(matches!(read_payload(&[0x00, 0x01, 0xFF], 0, 8), Err(NbtError::InvalidUtf8)));
    assert!(matches!(NbtCompound::read_root(&[0x08, 0x00, 0x00]), Err(NbtError::NoRootCompound(8))));
    let mut out = Vec::new();
    let long = "a".repeat(70_000);
    assert!(matches!(NbtTag::String(long).serialize_data(&mut out), Err(NbtError::TooLong)));
}

#[test]
fn payload_layouts() {
    let mut out = Vec::new();
    NbtTag::Short(-2).serialize_data(&mut out).unwrap();
    assert_eq!(out, vec![0xFF, 0xFE]);
    let mut out = Vec::new();
    NbtTag::String("hé".to_string()).serialize_data(&mut out).unwrap();
    assert_eq!(out, vec![0x00, 0x03, b'h', 0xC3, 0xA9]);
    let (t, end) = read_payload(&out, 0, 8).unwrap();
    assert_eq!(end, 5);
    assert!(matches!(t, NbtTag::String(ref s) if s == "hé"));
    assert_eq!(NbtTag::List(vec![]).get_type_id(), 9);
}

fn render_text(pieces: &[pumpkin_core::SnbtPiece]) -> String {
    pieces
        .iter()
        .map(|p| match p {
            pumpkin_core::SnbtPiece::Text(t) => t.clone(),
            pumpkin_core::SnbtPiece::Float(b) => format!("f{b}"),
            pumpkin_core::SnbtPiece::Double(b) => format!("d{b}"),
        })
        .collect()
}

#[test]
fn snbt_layout() {
    let mut c = NbtCompound::new();
    c.put_int("x", -7);
    c.put_string("s", "hi".to_string());
    c.put("b", NbtTag::ByteArray(vec![1, 255]));
    c.put("i", NbtTag::IntArray(vec![i32::MIN, 0]));
    c.put("l", NbtTag::LongArray(vec![]));
    c.put("list", NbtTag::List(vec![NbtTag::Short(3), NbtTag::Long(1234567890123)]));
    c.put("f", NbtTag::Float(7));
    let mut inner = NbtCompound::new();
    inner.put_byte("k", 0);
    c.put_component("c", inner);
    assert_eq!(
        render_text(&c.snbt()),
        "{x: -7, s: \"hi\", b: [B; 1, 255], i: [I; -2147483648, 0], l: [L; ], list: [3, 1234567890123], f: f7, c: {k: 0}}"
    );
    assert_eq!(render_text(&NbtCompound::new().snbt()), "{}");
    assert_eq!(render_text(&NbtTag::Long(i64::MIN).snbt()), "-9223372036854775808");
}
