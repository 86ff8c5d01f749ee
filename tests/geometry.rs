use pumpkin_core::{
    Axis, BlockDirection, BlockPos, Facing, FacingExt, HorizontalAxis, HorizontalFacing,
    HorizontalFacingExt, Vector3, packed_chunk_pos, packed_local, unpack_chunk_pos,
};

#[test]
fn opposite_twice_is_identity() {
    for d in BlockDirection::all() {
        assert_eq!(d.opposite().opposite(), d);
        let o = d.to_offset();
        let p = d.opposite().to_offset();
        assert_eq!((o.x + p.x, o.y + p.y, o.z + p.z), (0, 0, 0));
    }
}

#[test]
fn four_clockwise_turns() {
    for d in BlockDirection::horizontal() {
        let r = d.rotate_clockwise().rotate_clockwise().rotate_clockwise().rotate_clockwise();
        assert_eq!(r, d);
        assert_eq!(d.rotate_clockwise().rotate_counter_clockwise(), d);
    }
    assert_eq!(BlockDirection::North.rotate_clockwise(), BlockDirection::East);
    assert_eq!(BlockDirection::Up.rotate_clockwise(), BlockDirection::East);
    assert_eq!(BlockDirection::Down.rotate_clockwise(), BlockDirection::West);
    assert_eq!(BlockDirection::Up.rotate_counter_clockwise(), BlockDirection::West);
}

#[test]
fn indices_and_orders() {
    for (i, d) in BlockDirection::all().iter().enumerate() {
        assert_eq!(d.to_index() as usize, i);
        assert_eq!(BlockDirection::from_index(i as u8), Some(*d));
        assert_eq!(BlockDirection::by_index(i + 6), Some(*d));
    }
    assert_eq!(BlockDirection::from_index(6), None);
    assert!(BlockDirection::try_from_i32(-1).is_err());
    assert_eq!(BlockDirection::try_from_i32(5).ok(), Some(BlockDirection::East));
    assert_eq!(BlockDirection::flow_directions().len(), 5);
    assert!(!BlockDirection::flow_directions().contains(&BlockDirection::Up));
    assert_eq!(BlockDirection::update_order()[0], BlockDirection::West);
    assert_eq!(BlockDirection::abstract_block_update_order()[5], BlockDirection::Up);
    assert_eq!(BlockDirection::vertical(), [BlockDirection::Down, BlockDirection::Up]);
    assert_eq!(BlockDirection::random(4), BlockDirection::West);
    assert_eq!(BlockDirection::random_horizontal(1), BlockDirection::South);
}

#[test]
fn axes_and_facings() {
    assert_eq!(BlockDirection::North.to_axis(), Axis::Z);
    assert_eq!(BlockDirection::Up.to_axis(), Axis::Y);
    assert_eq!(BlockDirection::East.to_horizontal_axis(), Some(HorizontalAxis::X));
    assert_eq!(BlockDirection::Down.to_horizontal_axis(), None);
    assert_eq!(BlockDirection::Up.to_cardinal_direction(), HorizontalFacing::North);
    assert_eq!(BlockDirection::West.to_horizontal_facing(), Some(HorizontalFacing::West));
    assert_eq!(BlockDirection::from_cardinal_direction(HorizontalFacing::South), BlockDirection::South);
    assert_eq!(BlockDirection::Down.to_facing(), Facing::Down);
    assert_eq!(Facing::Up.to_block_direction(), BlockDirection::Up);
    assert_eq!(HorizontalFacing::East.to_block_direction(), BlockDirection::East);
    assert!(BlockDirection::South.positive());
    assert!(!BlockDirection::North.positive());
    assert!(BlockDirection::West.is_horizontal());
    assert_eq!(Axis::all(), [Axis::Y, Axis::X, Axis::Z]);
    assert_eq!(Axis::horizontal(), [Axis::X, Axis::Z]);
    assert_eq!(Axis::excluding(Axis::Y), [Axis::X, Axis::Z]);
}

#[test]
fn packed_pos_round_trip() {
    let v = Vector3::new(5, -1, -5);
    assert_eq!(unpack_chunk_pos(packed_chunk_pos(&v)), v);
    let edges = [
        Vector3::new(-(1 << 21), -(1 << 19), (1 << 21) - 1),
        Vector3::new((1 << 21) - 1, (1 << 19) - 1, -(1 << 21)),
        Vector3::new(0, 0, 0),
    ];
    for e in edges {
        assert_eq!(unpack_chunk_pos(packed_chunk_pos(&e)), e);
    }
    assert_eq!(packed_chunk_pos(&Vector3::new(1, 2, 3)), (1i64 << 42) | (3 << 20) | 2);
}

#[test]
fn vector_arithmetic() {
    let a = Vector3::new(1, 2, 3);
    let b = Vector3::new(4, -5, 6);
    assert_eq!(a.add(&b), Vector3::new(5, -3, 9));
    assert_eq!(a.sub(&b), Vector3::new(-3, 7, -3));
    assert_eq!(a.length_squared(), 14);
    assert_eq!(a.horizontal_length_squared(), 10);
    assert_eq!(a.squared_distance_to_vec(b), 9 + 49 + 9);
    assert_eq!(a.multiply(2, 3, 4), Vector3::new(2, 6, 12));
    assert_eq!(a.lerp(&b, 2), Vector3::new(7, -12, 9));
    assert!(a.is_within_bounds(Vector3::new(0, 0, 0), 1, 2, 3));
    assert!(!a.is_within_bounds(Vector3::new(0, 0, 0), 1, 1, 3));
    let mut c = a;
    c.set_axis(Axis::Y, 9);
    assert_eq!(c.get_axis(Axis::Y), 9);
    assert_eq!(c.get_axis(Axis::X), 1);
    assert_eq!(a.to_block_pos(), BlockPos::new(1, 2, 3));
    assert_eq!(a.to_vec2_i32().y, 3);
    assert_eq!(packed_local(&Vector3::new(1, 2, 3)), 0x132);
}
