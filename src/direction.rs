use vstd::prelude::*;

use crate::vector::{Axis, Vector3};

verus! {

/// One of the six faces of a block.
#[derive(Clone, Copy, Debug, PartialEq, Eq, Hash, Structural)]
pub enum BlockDirection {
    Down,
    Up,
    North,
    South,
    West,
    East,
}

/// The facing property of a block state.
#[derive(Clone, Copy, Debug, PartialEq, Eq, Hash, Structural)]
pub enum Facing {
    North,
    East,
    South,
    West,
    Up,
    Down,
}

/// The horizontal facing property of a block state.
#[derive(Clone, Copy, Debug, PartialEq, Eq, Hash, Structural)]
pub enum HorizontalFacing {
    North,
    South,
    West,
    East,
}

/// The horizontal axis property of a block state.
#[derive(Clone, Copy, Debug, PartialEq, Eq, Hash, Structural)]
pub enum HorizontalAxis {
    X,
    Z,
}

/// The error for an integer that names no block face.
#[derive(Clone, Copy, Debug, PartialEq, Eq, Structural)]
pub struct InvalidBlockFace;

/// The index of each face: Down, Up, North, South, West, East are 0 to 5.
pub open spec fn index_of(d: BlockDirection) -> nat {
    match d {
        BlockDirection::Down => 0,
        BlockDirection::Up => 1,
        BlockDirection::North => 2,
        BlockDirection::South => 3,
        BlockDirection::West => 4,
        BlockDirection::East => 5,
    }
}

/// The face with index `i`, if `i` names one.
pub open spec fn direction_at(i: int) -> Option<BlockDirection> {
    if i == 0 {
        Some(BlockDirection::Down)
    } else if i == 1 {
        Some(BlockDirection::Up)
    } else if i == 2 {
        Some(BlockDirection::North)
    } else if i == 3 {
        Some(BlockDirection::South)
    } else if i == 4 {
        Some(BlockDirection::West)
    } else if i == 5 {
        Some(BlockDirection::East)
    } else {
        None
    }
}

/// The unit vector that points out of each face.
pub open spec fn offset_of(d: BlockDirection) -> (int, int, int) {
    match d {
        BlockDirection::Down => (0, -1, 0),
        BlockDirection::Up => (0, 1, 0),
        BlockDirection::North => (0, 0, -1),
        BlockDirection::South => (0, 0, 1),
        BlockDirection::West => (-1, 0, 0),
        BlockDirection::East => (1, 0, 0),
    }
}

pub open spec fn spec_is_horizontal(d: BlockDirection) -> bool {
    d != BlockDirection::Up && d != BlockDirection::Down
}

/// The face across the block: its offset is the negated offset.
pub open spec fn spec_opposite(d: BlockDirection) -> BlockDirection {
    match d {
        BlockDirection::Down => BlockDirection::Up,
        BlockDirection::Up => BlockDirection::Down,
        BlockDirection::North => BlockDirection::South,
        BlockDirection::South => BlockDirection::North,
        BlockDirection::West => BlockDirection::East,
        BlockDirection::East => BlockDirection::West,
    }
}

/// Clockwise rotation seen from above: North, East, South, West in a cycle;
/// Up goes to East and Down to West.
pub open spec fn spec_rotate_cw(d: BlockDirection) -> BlockDirection {
    match d {
        BlockDirection::North => BlockDirection::East,
        BlockDirection::East => BlockDirection::South,
        BlockDirection::South => BlockDirection::West,
        BlockDirection::West => BlockDirection::North,
        BlockDirection::Up => BlockDirection::East,
        BlockDirection::Down => BlockDirection::West,
    }
}

/// Counter-clockwise rotation seen from above: the inverse cycle on the
/// horizontal faces; Up goes to West and Down to East.
pub open spec fn spec_rotate_ccw(d: BlockDirection) -> BlockDirection {
    match d {
        BlockDirection::North => BlockDirection::West,
        BlockDirection::West => BlockDirection::South,
        BlockDirection::South => BlockDirection::East,
        BlockDirection::East => BlockDirection::North,
        BlockDirection::Up => BlockDirection::West,
        BlockDirection::Down => BlockDirection::East,
    }
}

pub open spec fn spec_to_axis(d: BlockDirection) -> Axis {
    match d {
        BlockDirection::North | BlockDirection::South => Axis::Z,
        BlockDirection::West | BlockDirection::East => Axis::X,
        BlockDirection::Up | BlockDirection::Down => Axis::Y,
    }
}

pub open spec fn facing_of(d: BlockDirection) -> Facing {
    match d {
        BlockDirection::North => Facing::North,
        BlockDirection::South => Facing::South,
        BlockDirection::West => Facing::West,
        BlockDirection::East => Facing::East,
        BlockDirection::Up => Facing::Up,
        BlockDirection::Down => Facing::Down,
    }
}

pub open spec fn horizontal_facing_of(d: BlockDirection) -> Option<HorizontalFacing> {
    match d {
        BlockDirection::North => Some(HorizontalFacing::North),
        BlockDirection::South => Some(HorizontalFacing::South),
        BlockDirection::West => Some(HorizontalFacing::West),
        BlockDirection::East => Some(HorizontalFacing::East),
        _ => None,
    }
}

impl BlockDirection {
    pub fn to_index(&self) -> (r: u8)
        ensures
            r == index_of(*self),
    {
        match self {
            BlockDirection::Down => 0,
            BlockDirection::Up => 1,
            BlockDirection::North => 2,
            BlockDirection::South => 3,
            BlockDirection::West => 4,
            BlockDirection::East => 5,
        }
    }

    /// The face with the given index; `None` past 5.
    pub fn from_index(index: u8) -> (r: Option<BlockDirection>)
        ensures
            r == direction_at(index as int),
            r matches Some(d) ==> index_of(d) == index,
    {
        match index {
            0 => Some(BlockDirection::Down),
            1 => Some(BlockDirection::Up),
            2 => Some(BlockDirection::North),
            3 => Some(BlockDirection::South),
            4 => Some(BlockDirection::West),
            5 => Some(BlockDirection::East),
            _ => None,
        }
    }

    /// The face with the given index, as a fallible conversion.
    pub fn try_from_i32(value: i32) -> (r: Result<BlockDirection, InvalidBlockFace>)
        ensures
            0 <= value < 6 ==> r == Ok::<BlockDirection, InvalidBlockFace>(
                direction_at(value as int)->0,
            ),
            !(0 <= value < 6) ==> r is Err,
    {
        match value {
            0 => Ok(BlockDirection::Down),
            1 => Ok(BlockDirection::Up),
            2 => Ok(BlockDirection::North),
            3 => Ok(BlockDirection::South),
            4 => Ok(BlockDirection::West),
            5 => Ok(BlockDirection::East),
            _ => Err(InvalidBlockFace),
        }
    }

    /// Picks one of `all()` from a drawn number in `0..5`: the number is the index.
    pub fn random(roll: i32) -> (r: BlockDirection)
        requires
            0 <= roll < 5,
        ensures
            Some(r) == direction_at(roll as int),
    {
        let all = Self::all();
        all[roll as usize]
    }

    /// Picks one of `horizontal()` from a drawn number in `0..3`: the number is the index.
    pub fn random_horizontal(roll: i32) -> (r: BlockDirection)
        requires
            0 <= roll < 3,
        ensures
            Some(r) == direction_at(roll + 2),
    {
        let horizontal = Self::horizontal();
        horizontal[roll as usize]
    }

    /// The face whose index is `index` modulo 6.
    pub fn by_index(index: usize) -> (r: Option<BlockDirection>)
        ensures
            r == direction_at(index as int % 6),
    {
        let all = Self::all();
        Some(all[index % 6])
    }

    pub fn to_offset(&self) -> (r: Vector3<i32>)
        ensures
            (r.x as int, r.y as int, r.z as int) == offset_of(*self),
    {
        match self {
            BlockDirection::Down => Vector3 { x: 0, y: -1, z: 0 },
            BlockDirection::Up => Vector3 { x: 0, y: 1, z: 0 },
            BlockDirection::North => Vector3 { x: 0, y: 0, z: -1 },
            BlockDirection::South => Vector3 { x: 0, y: 0, z: 1 },
            BlockDirection::West => Vector3 { x: -1, y: 0, z: 0 },
            BlockDirection::East => Vector3 { x: 1, y: 0, z: 0 },
        }
    }

    pub fn opposite(&self) -> (r: BlockDirection)
        ensures
            r == spec_opposite(*self),
            offset_of(r) == (-offset_of(*self).0, -offset_of(*self).1, -offset_of(*self).2),
    {
        match self {
            BlockDirection::Down => BlockDirection::Up,
            BlockDirection::Up => BlockDirection::Down,
            BlockDirection::North => BlockDirection::South,
            BlockDirection::South => BlockDirection::North,
            BlockDirection::West => BlockDirection::East,
            BlockDirection::East => BlockDirection::West,
        }
    }

    /// Whether the face points along a positive axis.
    pub fn positive(&self) -> (r: bool)
        ensures
            r == (offset_of(*self).0 + offset_of(*self).1 + offset_of(*self).2 > 0),
    {
        match self {
            BlockDirection::South | BlockDirection::East | BlockDirection::Up => true,
            _ => false,
        }
    }

    /// All faces, by index.
    pub fn all() -> (r: [BlockDirection; 6])
        ensures
            forall|i: int| 0 <= i < 6 ==> Some(#[trigger] r[i]) == direction_at(i),
    {
        [
            BlockDirection::Down,
            BlockDirection::Up,
            BlockDirection::North,
            BlockDirection::South,
            BlockDirection::West,
            BlockDirection::East,
        ]
    }

    /// The order in which neighbours are told of a block update.
    pub fn update_order() -> (r: [BlockDirection; 6])
        ensures
            r@ == seq![
                BlockDirection::West,
                BlockDirection::East,
                BlockDirection::Down,
                BlockDirection::Up,
                BlockDirection::North,
                BlockDirection::South,
            ],
    {
        [
            BlockDirection::West,
            BlockDirection::East,
            BlockDirection::Down,
            BlockDirection::Up,
            BlockDirection::North,
            BlockDirection::South,
        ]
    }

    /// The neighbour order used for the state updates of plain blocks.
    pub fn abstract_block_update_order() -> (r: [BlockDirection; 6])
        ensures
            r@ == seq![
                BlockDirection::West,
                BlockDirection::East,
                BlockDirection::North,
                BlockDirection::South,
                BlockDirection::Down,
                BlockDirection::Up,
            ],
    {
        [
            BlockDirection::West,
            BlockDirection::East,
            BlockDirection::North,
            BlockDirection::South,
            BlockDirection::Down,
            BlockDirection::Up,
        ]
    }

    /// The four horizontal faces, by index.
    pub fn horizontal() -> (r: [BlockDirection; 4])
        ensures
            forall|i: int| 0 <= i < 4 ==> Some(#[trigger] r[i]) == direction_at(i + 2),
    {
        [BlockDirection::North, BlockDirection::South, BlockDirection::West, BlockDirection::East]
    }

    /// Every face but Up: the directions a fluid can flow in.
    pub fn flow_directions() -> (r: [BlockDirection; 5])
        ensures
            r@ == seq![
                BlockDirection::Down,
                BlockDirection::North,
                BlockDirection::South,
                BlockDirection::West,
                BlockDirection::East,
            ],
    {
        [
            BlockDirection::Down,
            BlockDirection::North,
            BlockDirection::South,
            BlockDirection::West,
            BlockDirection::East,
        ]
    }

    pub fn is_horizontal(&self) -> (r: bool)
        ensures
            r == spec_is_horizontal(*self),
            r == (offset_of(*self).1 == 0),
    {
        match self {
            BlockDirection::North | BlockDirection::South | BlockDirection::West
            | BlockDirection::East => true,
            _ => false,
        }
    }

    /// The two vertical faces.
    pub fn vertical() -> (r: [BlockDirection; 2])
        ensures
            r@ == seq![BlockDirection::Down, BlockDirection::Up],
    {
        [BlockDirection::Down, BlockDirection::Up]
    }

    pub fn to_horizontal_facing(&self) -> (r: Option<HorizontalFacing>)
        ensures
            r == horizontal_facing_of(*self),
    {
        match self {
            BlockDirection::North => Some(HorizontalFacing::North),
            BlockDirection::South => Some(HorizontalFacing::South),
            BlockDirection::West => Some(HorizontalFacing::West),
            BlockDirection::East => Some(HorizontalFacing::East),
            _ => None,
        }
    }

    pub fn to_horizontal_axis(&self) -> (r: Option<HorizontalAxis>)
        ensures
            r == (if spec_to_axis(*self) == Axis::X {
                Some(HorizontalAxis::X)
            } else if spec_to_axis(*self) == Axis::Z {
                Some(HorizontalAxis::Z)
            } else {
                None::<HorizontalAxis>
            }),
    {
        match self {
            BlockDirection::North | BlockDirection::South => Some(HorizontalAxis::Z),
            BlockDirection::West | BlockDirection::East => Some(HorizontalAxis::X),
            _ => None,
        }
    }

    /// The horizontal facing of a horizontal face; North for Up and Down.
    pub fn to_cardinal_direction(&self) -> (r: HorizontalFacing)
        ensures
            r == (match horizontal_facing_of(*self) {
                Some(f) => f,
                None => HorizontalFacing::North,
            }),
    {
        match self {
            BlockDirection::North => HorizontalFacing::North,
            BlockDirection::South => HorizontalFacing::South,
            BlockDirection::West => HorizontalFacing::West,
            BlockDirection::East => HorizontalFacing::East,
            _ => HorizontalFacing::North,
        }
    }

    pub fn from_cardinal_direction(direction: HorizontalFacing) -> (r: BlockDirection)
        ensures
            horizontal_facing_of(r) == Some(direction),
    {
        match direction {
            HorizontalFacing::North => BlockDirection::North,
            HorizontalFacing::South => BlockDirection::South,
            HorizontalFacing::West => BlockDirection::West,
            HorizontalFacing::East => BlockDirection::East,
        }
    }

    /// The axis the face's offset lies on.
    pub fn to_axis(&self) -> (r: Axis)
        ensures
            r == spec_to_axis(*self),
            (r == Axis::X) == (offset_of(*self).0 != 0),
            (r == Axis::Y) == (offset_of(*self).1 != 0),
            (r == Axis::Z) == (offset_of(*self).2 != 0),
    {
        match self {
            BlockDirection::North | BlockDirection::South => Axis::Z,
            BlockDirection::West | BlockDirection::East => Axis::X,
            BlockDirection::Up | BlockDirection::Down => Axis::Y,
        }
    }

    pub fn to_facing(&self) -> (r: Facing)
        ensures
            r == facing_of(*self),
    {
        match self {
            BlockDirection::North => Facing::North,
            BlockDirection::South => Facing::South,
            BlockDirection::West => Facing::West,
            BlockDirection::East => Facing::East,
            BlockDirection::Up => Facing::Up,
            BlockDirection::Down => Facing::Down,
        }
    }

    pub fn rotate_clockwise(&self) -> (r: BlockDirection)
        ensures
            r == spec_rotate_cw(*self),
    {
        match self {
            BlockDirection::North => BlockDirection::East,
            BlockDirection::East => BlockDirection::South,
            BlockDirection::South => BlockDirection::West,
            BlockDirection::West => BlockDirection::North,
            BlockDirection::Up => BlockDirection::East,
            BlockDirection::Down => BlockDirection::West,
        }
    }

    pub fn rotate_counter_clockwise(&self) -> (r: BlockDirection)
        ensures
            r == spec_rotate_ccw(*self),
    {
        match self {
            BlockDirection::North => BlockDirection::West,
            BlockDirection::West => BlockDirection::South,
            BlockDirection::South => BlockDirection::East,
            BlockDirection::East => BlockDirection::North,
            BlockDirection::Up => BlockDirection::West,
            BlockDirection::Down => BlockDirection::East,
        }
    }
}

/// The opposite of the opposite face is the face itself.
pub proof fn lemma_opposite_involution(d: BlockDirection)
    ensures
        spec_opposite(spec_opposite(d)) == d,
{
}

/// Four clockwise turns bring every horizontal face back to itself, and a
/// counter-clockwise turn undoes a clockwise one.
pub proof fn lemma_rotate_cw_cycle(d: BlockDirection)
    requires
        spec_is_horizontal(d),
    ensures
        spec_rotate_cw(spec_rotate_cw(spec_rotate_cw(spec_rotate_cw(d)))) == d,
        spec_rotate_ccw(spec_rotate_cw(d)) == d,
        spec_is_horizontal(spec_rotate_cw(d)),
{
}

/// Turns a facing property into a block face.
pub trait FacingExt {
    spec fn spec_block_direction(&self) -> BlockDirection;

    fn to_block_direction(&self) -> (r: BlockDirection)
        ensures
            r == self.spec_block_direction(),
    ;
}

impl FacingExt for Facing {
    /// The face whose facing property this is.
    open spec fn spec_block_direction(&self) -> BlockDirection {
        match self {
            Facing::North => BlockDirection::North,
            Facing::South => BlockDirection::South,
            Facing::West => BlockDirection::West,
            Facing::East => BlockDirection::East,
            Facing::Up => BlockDirection::Up,
            Facing::Down => BlockDirection::Down,
        }
    }

    fn to_block_direction(&self) -> (r: BlockDirection) {
        match self {
            Facing::North => BlockDirection::North,
            Facing::South => BlockDirection::South,
            Facing::West => BlockDirection::West,
            Facing::East => BlockDirection::East,
            Facing::Up => BlockDirection::Up,
            Facing::Down => BlockDirection::Down,
        }
    }
}

/// Turns a horizontal facing property into a block face.
pub trait HorizontalFacingExt {
    spec fn spec_block_direction(&self) -> BlockDirection;

    fn to_block_direction(&self) -> (r: BlockDirection)
        ensures
            r == self.spec_block_direction(),
    ;
}

impl HorizontalFacingExt for HorizontalFacing {
    /// The horizontal face whose facing property this is.
    open spec fn spec_block_direction(&self) -> BlockDirection {
        match self {
            HorizontalFacing::North => BlockDirection::North,
            HorizontalFacing::South => BlockDirection::South,
            HorizontalFacing::West => BlockDirection::West,
            HorizontalFacing::East => BlockDirection::East,
        }
    }

    fn to_block_direction(&self) -> (r: BlockDirection) {
        match self {
            HorizontalFacing::North => BlockDirection::North,
            HorizontalFacing::South => BlockDirection::South,
            HorizontalFacing::West => BlockDirection::West,
            HorizontalFacing::East => BlockDirection::East,
        }
    }
}

/// A face and its facing property name each other.
pub proof fn lemma_facing_round_trip(d: BlockDirection, f: Facing, h: HorizontalFacing)
    ensures
        facing_of(d).spec_block_direction() == d,
        facing_of(f.spec_block_direction()) == f,
        horizontal_facing_of(h.spec_block_direction()) == Some(h),
{
}

} // verus!
