//! World-chunk engine of a voxel game server: block directions and vectors,
//! bit-packed paletted containers, the NBT codec, Anvil region files, the
//! chunk wire frame, and the registries of watched and loaded chunks.

mod bits;
mod block;
mod direction;
mod level;
mod metrics;
mod nbt;
mod nbt_read;
mod packets;
mod palette;
mod region;
mod snbt;
mod vector;
mod watchers;
mod wire;

pub use bits::{encompassing_bits, entry_in, pack_entries};
pub use direction::{
    BlockDirection, Facing, FacingExt, HorizontalAxis, HorizontalFacing, HorizontalFacingExt,
    InvalidBlockFace,
};
pub use nbt::{
    BYTE_ARRAY_ID, BYTE_ID, COMPOUND_ID, DOUBLE_ID, END_ID, FLOAT_ID, INT_ARRAY_ID, INT_ID,
    LIST_ID, LONG_ARRAY_ID, LONG_ID, NbtCompound, NbtError, NbtTag, SHORT_ID, STRING_ID,
};
pub use nbt_read::read_payload;
pub use palette::{
    BIOME_DISK_MIN_BITS, BIOME_NETWORK_MAX_BITS, BIOME_NETWORK_MAX_MAP_BITS,
    BIOME_NETWORK_MIN_MAP_BITS, BLOCK_DISK_MIN_BITS, BLOCK_NETWORK_MAX_BITS,
    BLOCK_NETWORK_MAX_MAP_BITS, BLOCK_NETWORK_MIN_MAP_BITS, BiomePalette, BlockPalette,
    ChunkSectionBiomes, ChunkSectionBlockStates, HeterogeneousPaletteData, NetworkPalette,
    NetworkSerialization, PalettedContainer, RegistryValue,
};
pub use packets::{
    Animation, BRAND, CEntityAnimation, CStopSound, CUpdateTags, CachedBranding, RegistryTags,
    load_icon_from_bytes, write_string_bounded,
};
pub use block::{
    BlockIsReplacing, SpreadContext, block_entity_position, block_entity_type_id,
    write_block_entity_header,
};
pub use level::LoadedChunks;
pub use metrics::{BarChart, Chart, SimplePie};
pub use region::{
    ChunkLocation, CompressionScheme, REGION_CHUNKS, RegionError, SECTOR_BYTES, allocate,
    chunk_index, decompress, encode_chunk_payload, level_seed, read_chunk_nbt, read_level_dat,
    read_location, read_payload_at, read_timestamp, sectors_needed, write_chunk_into,
    write_location,
};
pub use vector::{
    Axis, BlockPos, Math, Vector2, Vector3, packed_chunk_pos, packed_local, unpack_chunk_pos,
};
pub use watchers::ChunkWatchers;
pub use wire::{
    BlockEntityEntry, CChunkData, ChunkData, ChunkHeightmaps, ChunkLight, ChunkSection,
    LightContainer, WritingError, write_blocks_and_biomes, write_var_int,
};
pub use snbt::SnbtPiece;
