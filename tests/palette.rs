use pumpkin_core::{
    BiomePalette, BlockPalette, NetworkPalette, PalettedContainer, encompassing_bits, entry_in,
    pack_entries,
};

fn promoted() -> BlockPalette {
    let mut c: BlockPalette = PalettedContainer::Homogeneous(0);
    let prev = c.set(0, 0, 0, 1);
    assert_eq!(prev, 0);
    c
}

#[test]
fn palette_promotion() {
    let c = promoted();
    assert!(matches!(c, PalettedContainer::Heterogeneous(_)));
    let mut counts = c.value_counts();
    counts.sort();
    assert_eq!(counts, vec![(0u16, 4095u16), (1u16, 1u16)]);
    assert_eq!(c.get(0, 0, 0), 1);
    assert_eq!(c.get(1, 0, 0), 0);
    assert_eq!(c.non_air_block_count(), 1);
}

#[test]
fn palette_demotion() {
    let mut c = promoted();
    let prev = c.set(0, 0, 0, 0);
    assert_eq!(prev, 1);
    assert!(matches!(c, PalettedContainer::Homogeneous(0)));
    assert_eq!(c.non_air_block_count(), 0);
}

#[test]
fn set_same_value_keeps_homogeneous() {
    let mut c: BlockPalette = PalettedContainer::Homogeneous(5);
    assert_eq!(c.set(3, 4, 5, 5), 5);
    assert!(matches!(c, PalettedContainer::Homogeneous(5)));
    assert_eq!(c.non_air_block_count(), 4096);
}

#[test]
fn counts_follow_every_set() {
    let mut c: BlockPalette = PalettedContainer::Homogeneous(0);
    for i in 0..40usize {
        c.set(i % 16, (i / 16) % 16, i % 3, (i % 4) as u16);
    }
    let cells = c.cells_in_order();
    for (v, n) in c.value_counts() {
        assert_eq!(cells.iter().filter(|x| **x == v).count(), n as usize);
    }
    let distinct: std::collections::BTreeSet<u16> = cells.iter().copied().collect();
    assert_eq!(distinct.len(), c.value_counts().len());
    assert_eq!(distinct.len() == 1, matches!(c, PalettedContainer::Homogeneous(_)));
}

fn seven_states() -> BlockPalette {
    let mut c: BlockPalette = PalettedContainer::Homogeneous(0);
    let mut i: usize = 0;
    for y in 0..16 {
        for z in 0..16 {
            for x in 0..16 {
                c.set(x, y, z, (i % 7) as u16 * 10);
                i += 1;
            }
        }
    }
    c
}

#[test]
fn disk_round_trip_seven_states() {
    let c = seven_states();
    for (_, n) in c.value_counts() {
        assert!(n == 585 || n == 586);
    }
    let disk = c.to_disk_nbt();
    assert_eq!(disk.palette.len(), 7);
    assert_eq!(disk.data.as_ref().map(|d| d.len()), Some(256));
    let back = BlockPalette::from_disk_nbt(disk);
    assert_eq!(back.cells_in_order(), c.cells_in_order());
}

#[test]
fn palette_round_trip_wider_bits() {
    let c = seven_states();
    for bits in [3u8, 4, 5, 8, 15] {
        let (palette, packed) = c.to_palette_and_packed_data(bits);
        let back = BlockPalette::from_palette_and_packed_data(&palette, &packed, bits);
        assert_eq!(back.cells_in_order(), c.cells_in_order());
    }
}

#[test]
fn homogeneous_disk_form_has_no_data() {
    let c: BlockPalette = PalettedContainer::Homogeneous(9);
    let disk = c.to_disk_nbt();
    assert_eq!(disk.palette, vec![9]);
    assert!(disk.data.is_none());
    let back = BlockPalette::from_disk_nbt(disk);
    assert!(matches!(back, PalettedContainer::Homogeneous(9)));
}

#[test]
fn empty_palette_defaults() {
    let c = BlockPalette::from_palette_and_packed_data(&[], &[], 4);
    assert!(matches!(c, PalettedContainer::Homogeneous(0)));
}

#[test]
fn short_packed_data_defaults() {
    // two values, first word only: cells past the first 16 read as the default
    let c = BlockPalette::from_palette_and_packed_data(&[7, 8], &[0x1111_1111_1111_1111u64 as i64], 4);
    assert_eq!(c.get(0, 0, 0), 8);
    assert_eq!(c.get(15, 0, 0), 8);
    assert_eq!(c.get(0, 0, 1), 0);
}

#[test]
fn out_of_range_index_defaults() {
    let c = BlockPalette::from_palette_and_packed_data(&[7, 8], &[0x5i64; 256], 4);
    assert_eq!(c.get(0, 0, 0), 0);
    assert_eq!(c.get(1, 0, 0), 7);
}

#[test]
fn network_forms() {
    let air: BlockPalette = PalettedContainer::Homogeneous(0);
    let n = air.convert_network();
    assert_eq!(n.bits_per_entry, 0);
    assert!(matches!(n.palette, NetworkPalette::Single(0)));
    assert!(n.packed_data.is_empty());

    let c = seven_states();
    let n = c.convert_network();
    assert_eq!(n.bits_per_entry, 4);
    assert!(matches!(n.palette, NetworkPalette::Indirect(ref p) if p.len() == 7));
    assert_eq!(n.packed_data.len(), 256);

    let mut many: BlockPalette = PalettedContainer::Homogeneous(0);
    for i in 0..300usize {
        many.set(i % 16, i / 256, (i / 16) % 16, i as u16);
    }
    let n = many.convert_network();
    assert_eq!(n.bits_per_entry, 15);
    assert!(matches!(n.palette, NetworkPalette::Direct));
    assert_eq!(n.packed_data.len(), 4096 / 4);
    assert_eq!(n.packed_data[0] & 0x7FFF, 0);
    assert_eq!((n.packed_data[0] >> 15) & 0x7FFF, 1);
}

#[test]
fn biome_forms() {
    let mut b: BiomePalette = PalettedContainer::Homogeneous(3);
    let n = b.convert_network();
    assert_eq!(n.bits_per_entry, 0);
    b.set(1, 2, 3, 4);
    let n = b.convert_network();
    assert_eq!(n.bits_per_entry, 1);
    assert_eq!(n.packed_data.len(), 1);
    let disk = b.to_disk_nbt();
    assert_eq!(disk.palette.len(), 2);
    let back = BiomePalette::from_disk_nbt(disk);
    assert_eq!(back.cells_in_order(), b.cells_in_order());
}

#[test]
fn encompassing_bits_values() {
    assert_eq!(encompassing_bits(0), 0);
    assert_eq!(encompassing_bits(1), 0);
    assert_eq!(encompassing_bits(2), 1);
    assert_eq!(encompassing_bits(3), 2);
    assert_eq!(encompassing_bits(4), 2);
    assert_eq!(encompassing_bits(5), 3);
    assert_eq!(encompassing_bits(256), 8);
    assert_eq!(encompassing_bits(257), 9);
}

#[test]
fn pack_layout() {
    let words = pack_entries(&vec![1, 2, 3], 4);
    assert_eq!(words, vec![0x321]);
    let words = pack_entries(&vec![5; 17], 4);
    assert_eq!(words.len(), 2);
    assert_eq!(words[1], 5);
    assert_eq!(entry_in(&words, 4, 16), Some(5));
    assert_eq!(entry_in(&words, 4, 17), Some(0));
    assert_eq!(entry_in(&words, 4, 32), None);
    // 64 / 5 = 12 entries a word, the top four bits stay clear
    let words = pack_entries(&vec![31; 13], 5);
    assert_eq!(words[0] as u64, (1u64 << 60) - 1);
    assert_eq!(words[1], 31);
}
