use vstd::arithmetic::power2::pow2;
use vstd::prelude::*;

use crate::nbt::{NbtCompound, NbtError, be16, be32, be64, bits16, bits32, bits64, enc_children, enc_longs, children_encodable};
use crate::palette::{
    BiomePalette, BlockPalette, NetworkPalette, NetworkSerialization, RegistryValue,
    lemma_network_palette_small, non_air,
};
use crate::vector::{BlockPos, Vector2};

verus! {

/// LEB128: seven bits a byte, least significant first, the high bit set on
/// every byte but the last.
pub open spec fn varint(u: u32) -> Seq<u8>
    decreases u,
{
    if u < 0x80 {
        seq![u as u8]
    } else {
        seq![((u % 0x80) + 0x80) as u8] + varint(u / 0x80)
    }
}

/// Writes a protocol VarInt: the two's-complement bits of `v` as LEB128.
pub fn write_var_int(out: &mut Vec<u8>, v: i32)
    ensures
        final(out)@ == old(out)@ + varint(bits32(v)),
{
    let mut u: u32 = #[verifier::truncate] (v as u32);
    let ghost start = old(out)@;
    let ghost whole = varint(bits32(v));
    loop
        invariant
            start == old(out)@,
            whole == varint(bits32(v)),
            start + whole == out@ + varint(u),
        decreases u,
    {
        if u < 0x80 {
            assert(varint(u) == seq![u as u8]);
            let ghost before = out@;
            out.push(u as u8);
            assert(out@ =~= before + varint(u));
            assert(start + whole =~= out@);
            return;
        }
        let ghost before = out@;
        out.push(((u % 0x80) + 0x80) as u8);
        assert(before + varint(u) =~= out@ + varint(u / 0x80));
        u = u / 0x80;
    }
}

/// A container of light levels for one section: nothing, or 2048 bytes of
/// nibbles.
#[derive(Clone, Debug)]
pub enum LightContainer {
    Empty,
    Full(Vec<u8>),
}

impl LightContainer {
    pub const ARRAY_SIZE: usize = 2048;
}

/// The three heightmaps of a chunk, as packed longs.
#[derive(Clone, Debug)]
pub struct ChunkHeightmaps {
    pub world_surface: Vec<i64>,
    pub motion_blocking: Vec<i64>,
    pub motion_blocking_no_leaves: Vec<i64>,
}

/// The sky and block light of a chunk: one container per section and one
/// below and above the world.
#[derive(Clone, Debug)]
pub struct ChunkLight {
    pub sky_light: Vec<LightContainer>,
    pub block_light: Vec<LightContainer>,
}

/// A section of a chunk: 16³ block states and 4³ biomes.
#[derive(Clone, Debug)]
pub struct ChunkSection {
    pub block_states: BlockPalette,
    pub biomes: BiomePalette,
}

/// What the wire frame carries of a block entity: where it stands, its type
/// id, and the compound it sends, if any.
#[derive(Debug)]
pub struct BlockEntityEntry {
    pub position: BlockPos,
    pub type_id: u32,
    pub chunk_data_nbt: Option<NbtCompound>,
}

/// A chunk column: its position, its sections from the bottom up, its
/// heightmaps, block entities and light.
#[derive(Debug)]
pub struct ChunkData {
    pub position: Vector2<i32>,
    pub sections: Vec<ChunkSection>,
    pub heightmap: ChunkHeightmaps,
    pub block_entities: Vec<BlockEntityEntry>,
    pub light_engine: ChunkLight,
    pub dirty: bool,
}

/// The "level chunk with light" packet of a chunk.
pub struct CChunkData<'a>(pub &'a ChunkData);

/// Why a frame could not be written.
#[derive(Clone, Copy, Debug, PartialEq, Eq, Structural)]
pub enum WritingError {
    /// A length that a VarInt cannot hold.
    TooLong,
    /// A block entity's compound could not be encoded.
    Nbt(NbtError),
}

/// Longs, big-endian, one after another.
pub open spec fn longs_bytes(a: Seq<i64>) -> Seq<u8> {
    enc_longs(a)
}

/// The ids of a palette, each as a VarInt.
pub open spec fn ids_bytes<V: RegistryValue>(ids: Seq<V>) -> Seq<u8>
    decreases ids.len(),
{
    if ids.len() == 0 {
        Seq::empty()
    } else {
        ids_bytes(ids.drop_last()) + varint(ids.last().spec_id() as u32)
    }
}

pub open spec fn palette_bytes<V: RegistryValue>(p: NetworkPalette<V>) -> Seq<u8> {
    match p {
        NetworkPalette::Single(v) => varint(v.spec_id() as u32),
        NetworkPalette::Indirect(vs) => varint(vs@.len() as u32) + ids_bytes(vs@),
        NetworkPalette::Direct => Seq::empty(),
    }
}

/// A container on the wire: width byte, palette, packed longs.
pub open spec fn network_bytes<V: RegistryValue>(n: NetworkSerialization<V>) -> Seq<u8> {
    seq![n.bits_per_entry] + palette_bytes(n.palette) + longs_bytes(n.packed_data@)
}

/// A section on the wire, given the wire forms of its two containers.
pub open spec fn section_bytes(
    s: ChunkSection,
    blocks: NetworkSerialization<u16>,
    biomes: NetworkSerialization<u8>,
) -> Seq<u8> {
    be16(bits16(non_air(s.block_states.cells()) as i16)) + network_bytes(blocks) + network_bytes(
        biomes,
    )
}

/// The wire forms fit the two containers of a section.
pub open spec fn section_forms(
    s: ChunkSection,
    blocks: NetworkSerialization<u16>,
    biomes: NetworkSerialization<u8>,
) -> bool {
    s.block_states.is_network_form(blocks, 4, 8, 15) && s.biomes.is_network_form(biomes, 1, 3, 7)
}

/// The sections one after another, given their wire forms.
pub open spec fn blob_bytes(
    sections: Seq<ChunkSection>,
    forms: Seq<(NetworkSerialization<u16>, NetworkSerialization<u8>)>,
) -> Seq<u8>
    decreases sections.len(),
{
    if sections.len() == 0 || forms.len() == 0 {
        Seq::empty()
    } else {
        blob_bytes(sections.drop_last(), forms.drop_last()) + section_bytes(
            sections.last(),
            forms.last().0,
            forms.last().1,
        )
    }
}

/// A section that the wire can carry: both containers well formed and, where
/// the ids go on the wire without a palette, block ids below 2^15 and biome
/// ids below 2^7.
pub open spec fn section_ok(s: ChunkSection) -> bool {
    &&& s.block_states.wf()
    &&& s.biomes.wf()
    &&& s.block_states.natural_bits() > 8 ==> forall|i: int|
        0 <= i < s.block_states.cells().len() ==> (#[trigger] s.block_states.cells()[i] as nat)
            < pow2(15)
    &&& s.biomes.natural_bits() > 3 ==> forall|i: int|
        0 <= i < s.biomes.cells().len() ==> (#[trigger] s.biomes.cells()[i] as nat) < pow2(7)
}

fn write_i64s(out: &mut Vec<u8>, a: &Vec<i64>)
    ensures
        final(out)@ == old(out)@ + longs_bytes(a@),
{
    let mut i: usize = 0;
    while i < a.len()
        invariant
            i <= a@.len(),
            out@ == old(out)@ + enc_longs(a@.subrange(0, i as int)),
        decreases a@.len() - i,
    {
        write_i64(out, a[i]);
        proof {
            assert(a@.subrange(0, i + 1).drop_last() =~= a@.subrange(0, i as int));
        }
        i = i + 1;
    }
    assert(a@.subrange(0, a@.len() as int) =~= a@);
}

fn write_i64(out: &mut Vec<u8>, v: i64)
    ensures
        final(out)@ == old(out)@ + be64(bits64(v)),
{
    let u: u64 = #[verifier::truncate] (v as u64);
    write_u32_be(out, (u / 0x1_0000_0000) as u32);
    write_u32_be(out, (u % 0x1_0000_0000) as u32);
    assert(final(out)@ =~= old(out)@ + be64(bits64(v)));
}

fn write_u32_be(out: &mut Vec<u8>, v: u32)
    ensures
        final(out)@ == old(out)@ + be32(v),
{
    out.push((v / 0x100_0000) as u8);
    out.push(((v / 0x1_0000) % 0x100) as u8);
    out.push(((v / 0x100) % 0x100) as u8);
    out.push((v % 0x100) as u8);
    assert(final(out)@ =~= old(out)@ + be32(v));
}

fn write_i16(out: &mut Vec<u8>, v: i16)
    ensures
        final(out)@ == old(out)@ + be16(bits16(v)),
{
    let u: u16 = #[verifier::truncate] (v as u16);
    out.push((u / 0x100) as u8);
    out.push((u % 0x100) as u8);
    assert(final(out)@ =~= old(out)@ + be16(bits16(v)));
}

fn write_network<V: RegistryValue>(out: &mut Vec<u8>, n: &NetworkSerialization<V>)
    requires
        match n.palette {
            NetworkPalette::Single(v) => v.spec_id() <= i32::MAX,
            NetworkPalette::Indirect(vs) => vs@.len() <= i32::MAX && forall|i: int|
                0 <= i < vs@.len() ==> (#[trigger] vs@[i]).spec_id() <= i32::MAX,
            NetworkPalette::Direct => true,
        },
    ensures
        final(out)@ == old(out)@ + network_bytes(*n),
{
    out.push(n.bits_per_entry);
    match &n.palette {
        NetworkPalette::Single(v) => {
            let id = v.id();
            write_var_int(out, id as i32);
            assert(bits32(id as i32) == v.spec_id() as u32);
        },
        NetworkPalette::Indirect(vs) => {
            write_var_int(out, vs.len() as i32);
            assert(bits32(vs@.len() as i32) == vs@.len() as u32);
            let ghost start = out@;
            let mut i: usize = 0;
            while i < vs.len()
                invariant
                    i <= vs@.len(),
                    vs@.len() <= i32::MAX,
                    forall|k: int| 0 <= k < vs@.len() ==> (#[trigger] vs@[k]).spec_id() <= i32::MAX,
                    out@ == start + ids_bytes(vs@.subrange(0, i as int)),
                decreases vs@.len() - i,
            {
                let id = vs[i].id();
                write_var_int(out, id as i32);
                proof {
                    assert(bits32(id as i32) == vs@[i as int].spec_id() as u32);
                    assert(vs@.subrange(0, i + 1).drop_last() =~= vs@.subrange(0, i as int));
                }
                i = i + 1;
            }
            assert(vs@.subrange(0, vs@.len() as int) =~= vs@);
        },
        NetworkPalette::Direct => {},
    }
    let ghost after_palette = out@;
    assert(after_palette == old(out)@ + seq![n.bits_per_entry] + palette_bytes(n.palette));
    write_i64s(out, &n.packed_data);
    assert(final(out)@ =~= old(out)@ + network_bytes(*n));
}

/// Appends one section: its non-air count, then the wire forms of its
/// block states and biomes.
fn write_section(out: &mut Vec<u8>, s: &ChunkSection) -> (forms: Ghost<
    (NetworkSerialization<u16>, NetworkSerialization<u8>),
>)
    requires
        section_ok(*s),
    ensures
        section_forms(*s, forms@.0, forms@.1),
        final(out)@ == old(out)@ + section_bytes(*s, forms@.0, forms@.1),
{
    let count = s.block_states.non_air_block_count();
    let blocks = s.block_states.convert_network();
    let biomes = s.biomes.convert_network();
    proof {
        lemma_network_palette_small(s.block_states, blocks, 4, 8, 15);
        lemma_network_palette_small(s.biomes, biomes, 1, 3, 7);
    }
    write_i16(out, count as i16);
    write_network(out, &blocks);
    write_network(out, &biomes);
    assert(final(out)@ =~= old(out)@ + section_bytes(*s, blocks, biomes));
    Ghost((blocks, biomes))
}

/// The blob of all sections, bottom up.
pub fn write_blocks_and_biomes(sections: &Vec<ChunkSection>) -> (r: Vec<u8>)
    requires
        forall|i: int| 0 <= i < sections@.len() ==> section_ok(#[trigger] sections@[i]),
    ensures
        exists|forms: Seq<(NetworkSerialization<u16>, NetworkSerialization<u8>)>|
            forms.len() == sections@.len() && (forall|i: int|
                0 <= i < sections@.len() ==> #[trigger] section_forms(
                    sections@[i],
                    forms[i].0,
                    forms[i].1,
                )) && r@ == blob_bytes(sections@, forms),
{
    let mut out: Vec<u8> = Vec::new();
    let ghost mut forms: Seq<(NetworkSerialization<u16>, NetworkSerialization<u8>)> = Seq::empty();
    let mut i: usize = 0;
    while i < sections.len()
        invariant
            i <= sections@.len(),
            forall|k: int| 0 <= k < sections@.len() ==> section_ok(#[trigger] sections@[k]),
            forms.len() == i,
            forall|k: int|
                0 <= k < i ==> #[trigger] section_forms(sections@[k], forms[k].0, forms[k].1),
            out@ == blob_bytes(sections@.subrange(0, i as int), forms),
        decreases sections@.len() - i,
    {
        let f = write_section(&mut out, &sections[i]);
        proof {
            let next = forms.push(f@);
            assert(sections@.subrange(0, i + 1).drop_last() =~= sections@.subrange(0, i as int));
            assert(next.drop_last() =~= forms);
            assert forall|k: int| 0 <= k < i + 1 implies #[trigger] section_forms(
                sections@[k],
                next[k].0,
                next[k].1,
            ) by {
                if k < i {
                    assert(next[k] == forms[k]);
                }
            }
            forms = next;
        }
        i = i + 1;
    }
    assert(sections@.subrange(0, sections@.len() as int) =~= sections@);
    out
}

pub open spec fn is_full(c: LightContainer) -> bool {
    c is Full
}

/// Bit `i` set for each container `i` that is full (or, with `full` false,
/// that is not).
pub open spec fn light_mask(cs: Seq<LightContainer>, full: bool) -> nat
    decreases cs.len(),
{
    if cs.len() == 0 {
        0
    } else {
        light_mask(cs.drop_last(), full) + if is_full(cs.last()) == full {
            pow2((cs.len() - 1) as nat)
        } else {
            0
        }
    }
}

pub open spec fn full_count(cs: Seq<LightContainer>) -> nat
    decreases cs.len(),
{
    if cs.len() == 0 {
        0
    } else {
        full_count(cs.drop_last()) + if is_full(cs.last()) {
            1nat
        } else {
            0
        }
    }
}

/// Each full container: the length 2048 as a VarInt, then its bytes.
pub open spec fn light_data(cs: Seq<LightContainer>) -> Seq<u8>
    decreases cs.len(),
{
    if cs.len() == 0 {
        Seq::empty()
    } else {
        light_data(cs.drop_last()) + match cs.last() {
            LightContainer::Full(d) => varint(2048) + d@,
            LightContainer::Empty => Seq::empty(),
        }
    }
}

/// A bit set of one long.
pub open spec fn bitset_bytes(mask: nat) -> Seq<u8> {
    varint(1) + be64(mask as u64)
}

pub open spec fn light_bytes(l: ChunkLight) -> Seq<u8> {
    bitset_bytes(light_mask(l.sky_light@, true)) + bitset_bytes(light_mask(l.block_light@, true))
        + bitset_bytes(light_mask(l.sky_light@, false)) + bitset_bytes(
        light_mask(l.block_light@, false),
    ) + varint(full_count(l.sky_light@) as u32) + light_data(l.sky_light@) + varint(
        full_count(l.block_light@) as u32,
    ) + light_data(l.block_light@)
}

/// Light that the frame can carry: one mask long of containers, full ones
/// of 2048 bytes.
pub open spec fn light_ok(l: ChunkLight) -> bool {
    &&& l.sky_light@.len() <= 63
    &&& l.block_light@.len() <= 63
    &&& forall|i: int|
        0 <= i < l.sky_light@.len() ==> (#[trigger] l.sky_light@[i] matches LightContainer::Full(d)
            ==> d@.len() == 2048)
    &&& forall|i: int|
        0 <= i < l.block_light@.len() ==> (#[trigger] l.block_light@[i] matches LightContainer::Full(
            d,
        ) ==> d@.len() == 2048)
}

pub open spec fn heightmap_bytes(h: ChunkHeightmaps) -> Seq<u8> {
    varint(3) + varint(1) + varint(h.world_surface@.len() as u32) + longs_bytes(h.world_surface@)
        + varint(4) + varint(h.motion_blocking@.len() as u32) + longs_bytes(h.motion_blocking@)
        + varint(5) + varint(h.motion_blocking_no_leaves@.len() as u32) + longs_bytes(
        h.motion_blocking_no_leaves@,
    )
}

pub open spec fn heightmaps_ok(h: ChunkHeightmaps) -> bool {
    h.world_surface@.len() <= i32::MAX && h.motion_blocking@.len() <= i32::MAX
        && h.motion_blocking_no_leaves@.len() <= i32::MAX
}

/// A block entity on the wire: local x and z in one byte, y, type id, then
/// its compound as a nameless root, or a lone End byte.
pub open spec fn entity_bytes(e: BlockEntityEntry) -> Seq<u8> {
    seq![((e.position.0.x & 15) * 16 + (e.position.0.z & 15)) as u8] + be16(
        #[verifier::truncate]
        (e.position.0.y as u16),
    ) + varint(e.type_id) + match e.chunk_data_nbt {
        Some(c) => seq![10u8] + enc_children(c.value()) + seq![0u8],
        None => seq![0u8],
    }
}

pub open spec fn entities_bytes(es: Seq<BlockEntityEntry>) -> Seq<u8>
    decreases es.len(),
{
    if es.len() == 0 {
        Seq::empty()
    } else {
        entities_bytes(es.drop_last()) + entity_bytes(es.last())
    }
}

pub open spec fn entity_ok(e: BlockEntityEntry) -> bool {
    e.type_id <= i32::MAX && match e.chunk_data_nbt {
        Some(c) => children_encodable(c.value()),
        None => true,
    }
}

/// The whole frame, given the wire forms of the sections.
pub open spec fn frame_bytes(
    c: ChunkData,
    forms: Seq<(NetworkSerialization<u16>, NetworkSerialization<u8>)>,
) -> Seq<u8> {
    be32(bits32(c.position.x)) + be32(bits32(c.position.y)) + heightmap_bytes(c.heightmap)
        + varint(blob_bytes(c.sections@, forms).len() as u32) + blob_bytes(c.sections@, forms)
        + varint(c.block_entities@.len() as u32) + entities_bytes(c.block_entities@)
        + light_bytes(c.light_engine)
}

fn write_heightmaps(out: &mut Vec<u8>, h: &ChunkHeightmaps)
    requires
        heightmaps_ok(*h),
    ensures
        final(out)@ == old(out)@ + heightmap_bytes(*h),
{
    write_var_int(out, 3);
    write_var_int(out, 1);
    write_var_int(out, h.world_surface.len() as i32);
    write_i64s(out, &h.world_surface);
    write_var_int(out, 4);
    write_var_int(out, h.motion_blocking.len() as i32);
    write_i64s(out, &h.motion_blocking);
    write_var_int(out, 5);
    write_var_int(out, h.motion_blocking_no_leaves.len() as i32);
    write_i64s(out, &h.motion_blocking_no_leaves);
    assert(final(out)@ =~= old(out)@ + heightmap_bytes(*h));
}

fn write_entity(out: &mut Vec<u8>, e: &BlockEntityEntry) -> (r: Result<(), WritingError>)
    ensures
        r is Ok <==> entity_ok(*e),
        r is Ok ==> final(out)@ == old(out)@ + entity_bytes(*e),
{
    if e.type_id > 0x7FFF_FFFF {
        return Err(WritingError::TooLong);
    }
    let x = e.position.0.x;
    let z = e.position.0.z;
    let lx = x & 15;
    let lz = z & 15;
    assert(0 <= lx < 16) by (bit_vector)
        requires
            lx == x & 15,
    ;
    assert(0 <= lz < 16) by (bit_vector)
        requires
            lz == z & 15,
    ;
    let local: u8 = (lx * 16 + lz) as u8;
    out.push(local);
    let y: u16 = #[verifier::truncate] (e.position.0.y as u16);
    out.push((y / 0x100) as u8);
    out.push((y % 0x100) as u8);
    write_var_int(out, e.type_id as i32);
    assert(bits32(e.type_id as i32) == e.type_id);
    match &e.chunk_data_nbt {
        Some(c) => {
            out.push(10u8);
            match c.serialize_content(out) {
                Ok(()) => {},
                Err(err) => {
                    return Err(WritingError::Nbt(err));
                },
            }
        },
        None => {
            out.push(0u8);
        },
    }
    assert(final(out)@ =~= old(out)@ + entity_bytes(*e));
    Ok(())
}

fn write_light_data(out: &mut Vec<u8>, cs: &Vec<LightContainer>)
    requires
        forall|i: int|
            0 <= i < cs@.len() ==> (#[trigger] cs@[i] matches LightContainer::Full(d) ==> d@.len()
                == 2048),
    ensures
        final(out)@ == old(out)@ + light_data(cs@),
{
    let mut i: usize = 0;
    while i < cs.len()
        invariant
            i <= cs@.len(),
            out@ == old(out)@ + light_data(cs@.subrange(0, i as int)),
        decreases cs@.len() - i,
    {
        match &cs[i] {
            LightContainer::Full(d) => {
                write_var_int(out, 2048);
                let mut k: usize = 0;
                let ghost mid = out@;
                while k < d.len()
                    invariant
                        k <= d@.len(),
                        out@ == mid + d@.subrange(0, k as int),
                    decreases d@.len() - k,
                {
                    out.push(d[k]);
                    k = k + 1;
                    assert(out@ =~= mid + d@.subrange(0, k as int));
                }
                assert(d@.subrange(0, d@.len() as int) =~= d@);
            },
            LightContainer::Empty => {},
        }
        proof {
            assert(cs@.subrange(0, i + 1).drop_last() =~= cs@.subrange(0, i as int));
            assert(out@ =~= old(out)@ + light_data(cs@.subrange(0, i + 1)));
        }
        i = i + 1;
    }
    assert(cs@.subrange(0, cs@.len() as int) =~= cs@);
}

/// The full mask (or with `full` false the empty mask) and the number of
/// full containers.
fn light_masks(cs: &Vec<LightContainer>, full: bool) -> (r: (u64, u32))
    requires
        cs@.len() <= 63,
    ensures
        r.0 == light_mask(cs@, full),
        r.0 < pow2(cs@.len()),
        r.1 == full_count(cs@),
{
    let mut mask: u64 = 0;
    let mut count: u32 = 0;
    let mut bit: u64 = 1;
    let mut i: usize = 0;
    proof {
        vstd::arithmetic::power2::lemma2_to64();
    }
    while i < cs.len()
        invariant
            i <= cs@.len() <= 63,
            bit == pow2(i as nat),
            mask == light_mask(cs@.subrange(0, i as int), full),
            mask < pow2(i as nat),
            count == full_count(cs@.subrange(0, i as int)),
            count <= i,
        decreases cs@.len() - i,
    {
        assert(cs@.subrange(0, i + 1).drop_last() =~= cs@.subrange(0, i as int));
        proof {
            vstd::arithmetic::power2::lemma_pow2_unfold((i + 1) as nat);
            vstd::arithmetic::power2::lemma_pow2_strictly_increases(i as nat, 63);
            vstd::arithmetic::power2::lemma2_to64_rest();
        }
        let is_full_here = match &cs[i] {
            LightContainer::Full(_) => true,
            LightContainer::Empty => false,
        };
        if is_full_here == full {
            mask = mask + bit;
        }
        if is_full_here {
            count = count + 1;
        }
        bit = bit * 2;
        i = i + 1;
    }
    assert(cs@.subrange(0, cs@.len() as int) =~= cs@);
    (mask, count)
}

proof fn lemma_full_count_bounded(cs: Seq<LightContainer>)
    ensures
        full_count(cs) <= cs.len(),
    decreases cs.len(),
{
    if cs.len() > 0 {
        lemma_full_count_bounded(cs.drop_last());
    }
}

fn write_bitset(out: &mut Vec<u8>, mask: u64)
    requires
        mask < pow2(63),
    ensures
        final(out)@ == old(out)@ + bitset_bytes(mask as nat),
{
    proof {
        vstd::arithmetic::power2::lemma2_to64_rest();
    }
    write_var_int(out, 1);
    write_i64(out, mask as i64);
    assert(bits64(mask as i64) == mask);
    assert(final(out)@ =~= old(out)@ + bitset_bytes(mask as nat));
}

#[verifier::rlimit(60)]
fn write_light(out: &mut Vec<u8>, l: &ChunkLight)
    requires
        light_ok(*l),
    ensures
        final(out)@ == old(out)@ + light_bytes(*l),
{
    let (sky_full, sky_count) = light_masks(&l.sky_light, true);
    let (block_full, block_count) = light_masks(&l.block_light, true);
    let (sky_empty, _) = light_masks(&l.sky_light, false);
    let (block_empty, _) = light_masks(&l.block_light, false);
    proof {
        if l.sky_light@.len() < 63 {
            vstd::arithmetic::power2::lemma_pow2_strictly_increases(l.sky_light@.len(), 63);
        }
        if l.block_light@.len() < 63 {
            vstd::arithmetic::power2::lemma_pow2_strictly_increases(l.block_light@.len(), 63);
        }
    }
    write_bitset(out, sky_full);
    write_bitset(out, block_full);
    write_bitset(out, sky_empty);
    write_bitset(out, block_empty);
    let ghost masks = out@;
    assert(masks == old(out)@ + bitset_bytes(light_mask(l.sky_light@, true)) + bitset_bytes(
        light_mask(l.block_light@, true),
    ) + bitset_bytes(light_mask(l.sky_light@, false)) + bitset_bytes(
        light_mask(l.block_light@, false),
    ));
    proof {
        lemma_full_count_bounded(l.sky_light@);
        lemma_full_count_bounded(l.block_light@);
    }
    assert(bits32(sky_count as i32) == full_count(l.sky_light@) as u32);
    assert(bits32(block_count as i32) == full_count(l.block_light@) as u32);
    write_var_int(out, sky_count as i32);
    write_light_data(out, &l.sky_light);
    write_var_int(out, block_count as i32);
    write_light_data(out, &l.block_light);
    assert(final(out)@ =~= masks + (varint(full_count(l.sky_light@) as u32) + light_data(
        l.sky_light@,
    ) + varint(full_count(l.block_light@) as u32) + light_data(l.block_light@)));
    assert(final(out)@ =~= old(out)@ + light_bytes(*l));
}

pub open spec fn forms_valid(
    sections: Seq<ChunkSection>,
    forms: Seq<(NetworkSerialization<u16>, NetworkSerialization<u8>)>,
) -> bool {
    forms.len() == sections.len() && forall|i: int|
        0 <= i < sections.len() ==> #[trigger] section_forms(sections[i], forms[i].0, forms[i].1)
}

/// A chunk that the frame can carry.
pub open spec fn chunk_ok(c: ChunkData) -> bool {
    &&& forall|i: int| 0 <= i < c.sections@.len() ==> section_ok(#[trigger] c.sections@[i])
    &&& heightmaps_ok(c.heightmap)
    &&& light_ok(c.light_engine)
}

fn write_all(out: &mut Vec<u8>, b: &Vec<u8>)
    ensures
        final(out)@ == old(out)@ + b@,
{
    let mut i: usize = 0;
    while i < b.len()
        invariant
            i <= b@.len(),
            out@ == old(out)@ + b@.subrange(0, i as int),
        decreases b@.len() - i,
    {
        out.push(b[i]);
        i = i + 1;
        assert(out@ =~= old(out)@ + b@.subrange(0, i as int));
    }
    assert(b@.subrange(0, b@.len() as int) =~= b@);
}

fn write_entities(out: &mut Vec<u8>, es: &Vec<BlockEntityEntry>) -> (r: Result<(), WritingError>)
    ensures
        r is Ok <==> forall|i: int| 0 <= i < es@.len() ==> entity_ok(#[trigger] es@[i]),
        r is Ok ==> final(out)@ == old(out)@ + entities_bytes(es@),
        r matches Err(WritingError::Nbt(_)) ==> exists|i: int|
            0 <= i < es@.len() && !entity_ok(#[trigger] es@[i]),
{
    let mut i: usize = 0;
    while i < es.len()
        invariant
            i <= es@.len(),
            out@ == old(out)@ + entities_bytes(es@.subrange(0, i as int)),
            forall|k: int| 0 <= k < i ==> entity_ok(#[trigger] es@[k]),
        decreases es@.len() - i,
    {
        match write_entity(out, &es[i]) {
            Ok(()) => {},
            Err(e) => {
                assert(!entity_ok(es@[i as int]));
                return Err(e);
            },
        }
        proof {
            assert(es@.subrange(0, i + 1).drop_last() =~= es@.subrange(0, i as int));
        }
        i = i + 1;
    }
    assert(es@.subrange(0, es@.len() as int) =~= es@);
    Ok(())
}

impl CChunkData<'_> {
    /// Writes the frame: position, heightmaps, the sections' blob with its
    /// length, the block entities and the light. Fails when a length does
    /// not fit a VarInt or a block entity's compound cannot be encoded.
    #[verifier::rlimit(50)]
    pub fn write_packet_data(&self, out: &mut Vec<u8>) -> (r: Result<(), WritingError>)
        requires
            chunk_ok(*self.0),
        ensures
            r is Ok ==> exists|forms: Seq<(NetworkSerialization<u16>, NetworkSerialization<u8>)>|
                forms_valid(self.0.sections@, forms) && final(out)@ == old(out)@ + frame_bytes(
                    *self.0,
                    forms,
                ),
            ((forall|forms: Seq<(NetworkSerialization<u16>, NetworkSerialization<u8>)>|
                forms_valid(self.0.sections@, forms) ==> blob_bytes(self.0.sections@, forms).len()
                    <= i32::MAX) && self.0.block_entities@.len() <= i32::MAX && forall|i: int|
                0 <= i < self.0.block_entities@.len() ==> entity_ok(
                    #[trigger] self.0.block_entities@[i],
                )) ==> r is Ok,
            r matches Err(WritingError::Nbt(_)) ==> exists|i: int|
                0 <= i < self.0.block_entities@.len() && !entity_ok(
                    #[trigger] self.0.block_entities@[i],
                ),
    {
        let c = self.0;
        write_u32_be(out, #[verifier::truncate] (c.position.x as u32));
        write_u32_be(out, #[verifier::truncate] (c.position.y as u32));
        write_heightmaps(out, &c.heightmap);
        let blob = write_blocks_and_biomes(&c.sections);
        let ghost forms = choose|forms: Seq<(NetworkSerialization<u16>, NetworkSerialization<u8>)>|
            forms.len() == c.sections@.len() && (forall|i: int|
                0 <= i < c.sections@.len() ==> #[trigger] section_forms(
                    c.sections@[i],
                    forms[i].0,
                    forms[i].1,
                )) && blob@ == blob_bytes(c.sections@, forms);
        assert(forms_valid(c.sections@, forms));
        if blob.len() > 0x7FFF_FFFF {
            return Err(WritingError::TooLong);
        }
        write_var_int(out, blob.len() as i32);
        write_all(out, &blob);
        if c.block_entities.len() > 0x7FFF_FFFF {
            return Err(WritingError::TooLong);
        }
        write_var_int(out, c.block_entities.len() as i32);
        let ghost before_entities = out@;
        write_entities(out, &c.block_entities)?;
        assert(out@ == before_entities + entities_bytes(c.block_entities@));
        write_light(out, &c.light_engine);
        assert(final(out)@ =~= old(out)@ + frame_bytes(*c, forms));
        Ok(())
    }
}

} // verus!
