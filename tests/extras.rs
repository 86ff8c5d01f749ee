use pumpkin_core::{
    Animation, BarChart, BlockIsReplacing, BlockPos, CEntityAnimation, CStopSound, CUpdateTags,
    CachedBranding, Chart, RegistryTags, SpreadContext, NbtCompound, SimplePie, Vector3, block_entity_position, block_entity_type_id,
    load_icon_from_bytes, write_block_entity_header, write_string_bounded,
};

#[test]
fn stop_sound_layouts() {
    let mut out = Vec::new();
    assert!(CStopSound::new(None, None).write_packet_data(&mut out));
    assert_eq!(out, vec![0]);
    let mut out = Vec::new();
    assert!(CStopSound::new(None, Some(3)).write_packet_data(&mut out));
    assert_eq!(out, vec![1, 3]);
    let mut out = Vec::new();
    assert!(CStopSound::new(Some("minecraft:a".to_string()), Some(2)).write_packet_data(&mut out));
    let mut expected = vec![3, 2, 11];
    expected.extend_from_slice(b"minecraft:a");
    assert_eq!(out, expected);
}

#[test]
fn entity_animation_layout() {
    let p = CEntityAnimation::new(300, Animation::LeaveBed);
    let mut out = Vec::new();
    p.write_packet_data(&mut out);
    assert_eq!(out, vec![0xAC, 0x02, 2]);
    assert_eq!(Animation::MagicCriticaleffect.id(), 5);
}

#[test]
fn branding_bytes() {
    let b = CachedBranding::new();
    assert_eq!(b.get_branding(), b"\x07Pumpkin");
}

#[test]
fn bounded_strings() {
    let mut out = Vec::new();
    assert!(!write_string_bounded(&mut out, "abcd", 3));
    assert!(out.is_empty());
    assert!(write_string_bounded(&mut out, "abc", 3));
    assert_eq!(out, vec![3, b'a', b'b', b'c']);
}

#[test]
fn icon_data_url() {
    assert_eq!(load_icon_from_bytes(b"Man"), "data:image/png;base64,TWFu");
    assert_eq!(load_icon_from_bytes(&[0xFF]), "data:image/png;base64,/w==");
}

#[test]
fn water_source() {
    assert!(BlockIsReplacing::Water(0).water_source());
    assert!(!BlockIsReplacing::Water(3).water_source());
    assert!(!BlockIsReplacing::Itself(0).water_source());
    assert!(!BlockIsReplacing::Nothing.water_source());
}

#[test]
fn block_entity_fields() {
    let mut nbt = NbtCompound::new();
    write_block_entity_header(&mut nbt, "minecraft:chest", BlockPos::new(1, -2, 3));
    assert_eq!(nbt.get_string("id"), Some("minecraft:chest"));
    assert_eq!(block_entity_position(&nbt), Some(BlockPos::new(1, -2, 3)));
    assert_eq!(block_entity_position(&NbtCompound::new()), None);
    let types = ["furnace", "chest", "sign"];
    assert_eq!(block_entity_type_id(&types, "minecraft:chest"), Some(1));
    assert_eq!(block_entity_type_id(&types, "sign"), Some(2));
    assert_eq!(block_entity_type_id(&types, "minecraft:bed"), None);
}

#[test]
fn vector_sign() {
    assert_eq!(Vector3::new(-7, 0, 9).sign(), Vector3::new(-1, 0, 1));
}

#[test]
fn charts() {
    assert!(Chart::new("").is_err());
    assert_eq!(Chart::new("players").unwrap().id(), "players");
    let _bar = BarChart::new("bars");
    let _pie = SimplePie::new("pie", "value".to_string());
}

#[test]
fn spread_context_memo() {
    let mut ctx = SpreadContext::new();
    let p = BlockPos::new(1, -64, 2);
    let q = BlockPos::new(2, -64, 1);
    assert_eq!(ctx.cached_hole(&p), None);
    ctx.record_hole(&p, true);
    ctx.record_hole(&q, false);
    assert_eq!(ctx.cached_hole(&p), Some(true));
    assert_eq!(ctx.cached_hole(&q), Some(false));
    assert_eq!(ctx.cached_hole(&BlockPos::new(1, 64, 2)), None);
}

#[test]
fn update_tags_layout() {
    let tags = [RegistryTags {
        registry: "minecraft:fluid".to_string(),
        tags: vec![("water".to_string(), vec![1, 2]), ("lava".to_string(), vec![])],
    }];
    let mut out = Vec::new();
    assert!(CUpdateTags::new(&tags).write_packet_data(&mut out));
    let mut expected = vec![1, 15];
    expected.extend_from_slice(b"minecraft:fluid");
    expected.push(2);
    expected.push(5);
    expected.extend_from_slice(b"water");
    expected.extend_from_slice(&[2, 1, 2, 4]);
    expected.extend_from_slice(b"lava");
    expected.push(0);
    assert_eq!(out, expected);
}
