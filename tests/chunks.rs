use std::sync::Arc;

use pumpkin_core::{
    BlockEntityEntry, BlockPos, CChunkData, ChunkData, ChunkHeightmaps, ChunkLight, ChunkSection,
    ChunkWatchers, LightContainer, LoadedChunks, RegionError, NbtCompound, PalettedContainer, Vector2, write_blocks_and_biomes,
    write_var_int,
};

const PLAINS: u8 = 40;

fn air_chunk() -> ChunkData {
    let sections = (0..24)
        .map(|_| ChunkSection {
            block_states: PalettedContainer::Homogeneous(0),
            biomes: PalettedContainer::Homogeneous(PLAINS),
        })
        .collect();
    ChunkData {
        position: Vector2 { x: 1, y: -2 },
        sections,
        heightmap: ChunkHeightmaps {
            world_surface: vec![1, 2],
            motion_blocking: vec![3, 4],
            motion_blocking_no_leaves: vec![5, 6],
        },
        block_entities: vec![],
        light_engine: ChunkLight {
            sky_light: (0..26).map(|_| LightContainer::Empty).collect(),
            block_light: (0..26).map(|_| LightContainer::Empty).collect(),
        },
        dirty: false,
    }
}

#[test]
fn air_chunk_blob() {
    let chunk = air_chunk();
    let blob = write_blocks_and_biomes(&chunk.sections);
    assert_eq!(blob.len(), 24 * 6);
    for s in blob.chunks(6) {
        assert_eq!(s, &[0, 0, 0, 0, 0, PLAINS]);
    }
}

#[test]
fn chunk_frame_layout() {
    let mut chunk = air_chunk();
    chunk.light_engine.sky_light[1] = LightContainer::Full(vec![7; 2048]);
    let mut nbt = NbtCompound::new();
    nbt.put_int("v", 1);
    chunk.block_entities.push(BlockEntityEntry {
        position: BlockPos::new(-1, 70, 18),
        type_id: 3,
        chunk_data_nbt: Some(nbt),
    });
    let mut out = Vec::new();
    CChunkData(&chunk).write_packet_data(&mut out).unwrap();
    // position
    assert_eq!(&out[0..8], &[0, 0, 0, 1, 0xFF, 0xFF, 0xFF, 0xFE]);
    // heightmaps: count, then index, length and longs for each of three
    assert_eq!(out[8], 3);
    assert_eq!(&out[9..11], &[1, 2]);
    assert_eq!(&out[11..19], &[0, 0, 0, 0, 0, 0, 0, 1]);
    let mut at = 8 + 1 + 3 * (2 + 16);
    assert_eq!(&out[at - 18..at - 16], &[5, 2]);
    assert_eq!(out[at - 1], 6);
    // the blob with its length, 144 as a two-byte VarInt
    assert_eq!(&out[at..at + 2], &[0x90, 0x01]);
    at += 2 + 144;
    // one block entity: local x/z, y, type, nameless compound
    assert_eq!(out[at], 1);
    assert_eq!(&out[at + 1..at + 5], &[0xF2, 0, 70, 3]);
    assert_eq!(&out[at + 5..at + 14], &[10, 3, 0, 1, b'v', 0, 0, 0, 1]);
    assert_eq!(out[at + 14], 0);
    at += 15;
    // masks: sky full, block full, sky empty, block empty
    assert_eq!(&out[at..at + 9], &[1, 0, 0, 0, 0, 0, 0, 0, 2]);
    assert_eq!(&out[at + 9..at + 18], &[1, 0, 0, 0, 0, 0, 0, 0, 0]);
    let all = (1u64 << 26) - 1;
    assert_eq!(out[at + 18], 1);
    assert_eq!(u64::from_be_bytes(out[at + 19..at + 27].try_into().unwrap()), all - 2);
    assert_eq!(u64::from_be_bytes(out[at + 28..at + 36].try_into().unwrap()), all);
    at += 36;
    // sky light: one array of 2048 bytes; no block light
    assert_eq!(&out[at..at + 3], &[1, 0x80, 0x10]);
    assert_eq!(out[at + 3], 7);
    at += 3 + 2048;
    assert_eq!(&out[at..], &[0]);
}

#[test]
fn var_int_layout() {
    let cases: [(i32, &[u8]); 5] = [
        (0, &[0]),
        (127, &[0x7F]),
        (128, &[0x80, 0x01]),
        (2048, &[0x80, 0x10]),
        (-1, &[0xFF, 0xFF, 0xFF, 0xFF, 0x0F]),
    ];
    for (v, bytes) in cases {
        let mut out = Vec::new();
        write_var_int(&mut out, v);
        assert_eq!(out, bytes);
    }
}

#[test]
fn watcher_drop() {
    let mut w = ChunkWatchers::new();
    let p = Vector2 { x: 3, y: -4 };
    w.mark_chunk_as_newly_watched(p);
    w.mark_chunk_as_newly_watched(p);
    assert_eq!(w.watcher_count(&p), 2);
    assert!(!w.mark_chunk_as_not_watched(p));
    assert!(w.mark_chunk_as_not_watched(p));
    assert!(!w.is_chunk_watched(&p));
    assert_eq!(w.watcher_count(&p), 0);
}

#[test]
fn watcher_marks_cancel() {
    let mut w = ChunkWatchers::new();
    let a = Vector2 { x: 0, y: 0 };
    let b = Vector2 { x: 1, y: 0 };
    w.mark_chunk_as_newly_watched(a);
    w.mark_chunks_as_newly_watched(&[a, b, b, b]);
    assert_eq!(w.watcher_count(&a), 2);
    assert_eq!(w.watcher_count(&b), 3);
    let dropped = w.mark_chunks_as_not_watched(&[b, b, a, b]);
    assert_eq!(dropped, vec![b]);
    assert_eq!(w.watcher_count(&a), 1);
    assert!(!w.is_chunk_watched(&b));
    // a chunk that was never watched reports that it may go
    assert!(w.mark_chunk_as_not_watched(Vector2 { x: 9, y: 9 }));
}

#[test]
fn first_load_once() {
    let mut loaded = LoadedChunks::new();
    let p = Vector2 { x: 1, y: -2 };
    assert!(loaded.get_cached(p).is_none());
    let (first, fresh) = loaded.settle_loaded(p, Arc::new(air_chunk()));
    assert!(fresh);
    let (second, fresh_again) = loaded.settle_loaded(p, Arc::new(air_chunk()));
    assert!(!fresh_again);
    assert!(Arc::ptr_eq(&first, &second));
    assert!(Arc::ptr_eq(&loaded.get_cached(p).unwrap(), &first));
    assert_eq!(loaded.loaded_chunk_count(), 1);
    let mut watchers = ChunkWatchers::new();
    let q = Vector2 { x: 5, y: 5 };
    loaded.settle_loaded(q, Arc::new(air_chunk()));
    watchers.mark_chunk_as_newly_watched(q);
    loaded.clean_memory(&watchers, &[p, q]);
    assert!(loaded.get_cached(p).is_none());
    assert!(loaded.get_cached(q).is_some());
    assert!(loaded.clean_chunk(&q).is_some());
    assert!(loaded.clean_chunk(&q).is_none());
    assert_eq!(loaded.loaded_chunk_count(), 0);
    // after a chunk leaves memory its next load is a first load again
    let (_, again) = loaded.settle_loaded(p, Arc::new(air_chunk()));
    assert!(again);
}

#[test]
fn fetch_delivers_once_per_position() {
    let mut loaded = LoadedChunks::new();
    let a = Vector2 { x: 0, y: 0 };
    let b = Vector2 { x: 0, y: 1 };
    let cached = Arc::new(air_chunk());
    loaded.settle_loaded(b, cached.clone());
    let out = loaded.fetch_chunks(&[a, b, a], |_| Ok(Arc::new(air_chunk()))).unwrap();
    assert_eq!(out.len(), 3);
    assert!(out[0].1);
    assert!(!out[1].1);
    assert!(Arc::ptr_eq(&out[1].0, &cached));
    assert!(!out[2].1);
    assert!(Arc::ptr_eq(&out[0].0, &out[2].0));
    assert_eq!(loaded.loaded_chunk_count(), 2);
}

#[test]
fn fetch_stops_on_storage_fault() {
    let mut loaded = LoadedChunks::new();
    let a = Vector2 { x: 0, y: 0 };
    let bad = Vector2 { x: 7, y: 7 };
    let r = loaded.fetch_chunks(&[a, bad, Vector2 { x: 1, y: 1 }], |p| {
        if p == bad { Err(RegionError::Decompression) } else { Ok(Arc::new(air_chunk())) }
    });
    assert!(matches!(r, Err(RegionError::Decompression)));
    assert!(loaded.get_cached(a).is_some());
    assert!(loaded.get_cached(bad).is_none());
    assert_eq!(loaded.loaded_chunk_count(), 1);
}
