use std::io::Write;

use pumpkin_core::{
    ChunkLocation, CompressionScheme, NbtCompound, RegionError, allocate, chunk_index, decompress,
    encode_chunk_payload, level_seed, read_chunk_nbt, read_level_dat, read_location, read_payload_at, read_timestamp,
    sectors_needed, write_chunk_into, write_location,
};

fn chunk_nbt(x: i32) -> NbtCompound {
    let mut c = NbtCompound::new();
    c.put_int("DataVersion", 4189);
    c.put_int("xPos", x);
    c.put_string("Status", "minecraft:full".to_string());
    c
}

#[test]
fn region_write_then_read() {
    let mut file = vec![0u8; 8192];
    let payload = encode_chunk_payload(&chunk_nbt(3)).unwrap();
    assert_eq!(payload[4], 2);
    let loc = write_chunk_into(&mut file, 3, -1, &payload).unwrap();
    assert_eq!(loc, ChunkLocation { offset: 2, sector_count: 1 });
    assert_eq!(file.len(), 3 * 4096);
    assert_eq!(read_location(&file, chunk_index(3, -1)), Some(loc));
    let back = read_chunk_nbt(&file, 3, -1).unwrap();
    assert_eq!(back.get_int("xPos"), Some(3));
    assert_eq!(back.get_string("Status"), Some("minecraft:full"));
    // a second chunk goes after the first; rewriting the first reuses its sector
    let other = encode_chunk_payload(&chunk_nbt(4)).unwrap();
    let loc2 = write_chunk_into(&mut file, 4, 0, &other).unwrap();
    assert_eq!(loc2.offset, 3);
    let again = write_chunk_into(&mut file, 3, -1, &payload).unwrap();
    assert_eq!(again.offset, 2);
    assert_eq!(read_chunk_nbt(&file, 4, 0).unwrap().get_int("xPos"), Some(4));
}

#[test]
fn missing_chunk() {
    let file = vec![0u8; 8192];
    assert!(matches!(read_chunk_nbt(&file, 0, 0), Err(RegionError::ChunkNotExist)));
    assert!(matches!(read_chunk_nbt(&file[..100], 0, 0), Err(RegionError::Truncated)));
}

#[test]
fn region_indices() {
    assert_eq!(chunk_index(0, 0), 0);
    assert_eq!(chunk_index(31, 31), 1023);
    assert_eq!(chunk_index(-1, 0), 31);
    assert_eq!(chunk_index(32, 1), 32);
    assert_eq!(sectors_needed(1), 1);
    assert_eq!(sectors_needed(4096), 1);
    assert_eq!(sectors_needed(4097), 2);
    assert_eq!(allocate(None, 1, 0), 2);
    assert_eq!(allocate(Some(ChunkLocation { offset: 5, sector_count: 2 }), 2, 9), 5);
    assert_eq!(allocate(Some(ChunkLocation { offset: 5, sector_count: 2 }), 3, 9), 9);
}

#[test]
fn header_entries() {
    let mut header = vec![0u8; 8192];
    write_location(&mut header, 7, ChunkLocation { offset: 0x01_0203, sector_count: 4 });
    assert_eq!(&header[28..32], &[1, 2, 3, 4]);
    assert_eq!(read_location(&header, 7), Some(ChunkLocation { offset: 0x01_0203, sector_count: 4 }));
    header[4096 + 28..4096 + 32].copy_from_slice(&[0, 0, 1, 0]);
    assert_eq!(read_timestamp(&header, 7), 256);
}

#[test]
fn payload_schemes() {
    // uncompressed payload of three bytes
    let mut file = vec![0u8; 3 * 4096];
    file[8192..8192 + 8].copy_from_slice(&[0, 0, 0, 4, 3, 9, 8, 7]);
    let loc = ChunkLocation { offset: 2, sector_count: 1 };
    let (c, data) = read_payload_at(&file, loc).unwrap();
    assert_eq!((c, data.clone()), (3, vec![9, 8, 7]));
    assert_eq!(decompress(c, data).unwrap(), vec![9, 8, 7]);
    assert!(matches!(decompress(9, vec![]), Err(RegionError::UnknownCompression(9))));
    assert!(matches!(decompress(4, vec![]), Err(RegionError::UnsupportedCompression)));
    assert!(matches!(decompress(2, vec![1, 2, 3]), Err(RegionError::Decompression)));
    let mut gz = flate2::write::GzEncoder::new(Vec::new(), flate2::Compression::default());
    gz.write_all(b"hello").unwrap();
    let packed = gz.finish().unwrap();
    assert_eq!(decompress(1, packed).unwrap(), b"hello".to_vec());
    assert_eq!(CompressionScheme::from_byte(2), Some(CompressionScheme::ZLib));
    assert_eq!(CompressionScheme::GZip.to_byte(), 1);
    // a length that runs past the file
    file[8192..8196].copy_from_slice(&[0, 0, 0x20, 0]);
    assert!(matches!(read_payload_at(&file, loc), Err(RegionError::Truncated)));
}

#[test]
fn level_dat_seed() {
    let mut settings = NbtCompound::new();
    settings.put_long("seed", -42);
    let mut data = NbtCompound::new();
    data.put_int("DataVersion", 4189);
    data.put_component("WorldGenSettings", settings);
    let mut root = NbtCompound::new();
    root.put_component("Data", data);
    let mut raw = Vec::new();
    root.write_root(&mut raw).unwrap();
    let mut gz = flate2::write::GzEncoder::new(Vec::new(), flate2::Compression::default());
    gz.write_all(&raw).unwrap();
    let bytes = gz.finish().unwrap();
    let level = read_level_dat(&bytes).unwrap();
    assert_eq!(level_seed(&level), Some(-42));
    assert_eq!(level_seed(&NbtCompound::new()), None);
    assert!(matches!(read_level_dat(&raw), Err(RegionError::Decompression)));
}
