use vstd::prelude::*;

verus! {

/// One of the three axes of block space.
#[derive(Clone, Copy, Debug, PartialEq, Eq, Hash, Structural)]
pub enum Axis {
    X,
    Y,
    Z,
}

impl Axis {
    /// All axes, vertical first.
    pub fn all() -> (r: [Axis; 3])
        ensures
            r@ == seq![Axis::Y, Axis::X, Axis::Z],
    {
        [Axis::Y, Axis::X, Axis::Z]
    }

    /// The two horizontal axes.
    pub fn horizontal() -> (r: [Axis; 2])
        ensures
            r@ == seq![Axis::X, Axis::Z],
    {
        [Axis::X, Axis::Z]
    }

    /// The two axes other than `axis`, in the order X, Y, Z.
    pub fn excluding(axis: Axis) -> (r: [Axis; 2])
        ensures
            r[0] != axis && r[1] != axis && r[0] != r[1],
            r[0] == Axis::X || (r[0] == Axis::Y && r[1] == Axis::Z),
    {
        match axis {
            Axis::X => [Axis::Y, Axis::Z],
            Axis::Y => [Axis::X, Axis::Z],
            Axis::Z => [Axis::X, Axis::Y],
        }
    }
}

/// Marker for the number types that vectors are built from.
pub trait Math {}

impl Math for i16 {}

impl Math for i32 {}

impl Math for i64 {}

impl Math for u8 {}

/// A three-component vector.
#[derive(Clone, Copy, Debug, PartialEq, Eq, Hash, Default, Structural)]
pub struct Vector3<T> {
    pub x: T,
    pub y: T,
    pub z: T,
}

/// A two-component vector; for chunk coordinates `y` holds the z coordinate.
#[derive(Clone, Copy, Debug, PartialEq, Eq, Hash, Default, Structural)]
pub struct Vector2<T> {
    pub x: T,
    pub y: T,
}

/// The position of a block in the world.
#[derive(Clone, Copy, Debug, PartialEq, Eq, Hash, Default, Structural)]
pub struct BlockPos(pub Vector3<i32>);

impl<T: Copy> Vector3<T> {
    pub open spec fn axis_value(&self, a: Axis) -> T {
        match a {
            Axis::X => self.x,
            Axis::Y => self.y,
            Axis::Z => self.z,
        }
    }

    /// The component along `a`.
    pub fn get_axis(&self, a: Axis) -> (r: T)
        ensures
            r == self.axis_value(a),
    {
        match a {
            Axis::X => self.x,
            Axis::Y => self.y,
            Axis::Z => self.z,
        }
    }

    /// Replaces the component along `a`, keeping the other two.
    pub fn set_axis(&mut self, a: Axis, value: T)
        ensures
            final(self).axis_value(a) == value,
            forall|b: Axis| b != a ==> final(self).axis_value(b) == old(self).axis_value(b),
    {
        match a {
            Axis::X => self.x = value,
            Axis::Y => self.y = value,
            Axis::Z => self.z = value,
        };
    }
}

pub open spec fn fits_i32(v: int) -> bool {
    i32::MIN <= v <= i32::MAX
}

pub open spec fn sign_of(v: int) -> int {
    if v > 0 {
        1
    } else if v < 0 {
        -1
    } else {
        0
    }
}

fn sign_i32(v: i32) -> (r: i32)
    ensures
        r == sign_of(v as int),
{
    if v > 0 {
        1
    } else if v < 0 {
        -1
    } else {
        0
    }
}

impl Vector3<i32> {
    pub fn new(x: i32, y: i32, z: i32) -> (r: Self)
        ensures
            r == (Vector3 { x, y, z }),
    {
        Vector3 { x, y, z }
    }

    pub open spec fn spec_length_squared(&self) -> int {
        self.x * self.x + self.y * self.y + self.z * self.z
    }

    pub open spec fn spec_squared_distance(&self, x: int, y: int, z: int) -> int {
        (self.x - x) * (self.x - x) + (self.y - y) * (self.y - y) + (self.z - z) * (self.z - z)
    }

    /// `x² + y² + z²`.
    pub fn length_squared(&self) -> (r: i32)
        requires
            fits_i32(self.spec_length_squared()),
        ensures
            r == self.spec_length_squared(),
    {
        proof {
            assert(0 <= self.x * self.x) by (nonlinear_arith);
            assert(0 <= self.y * self.y) by (nonlinear_arith);
            assert(0 <= self.z * self.z) by (nonlinear_arith);
        }
        self.x * self.x + self.y * self.y + self.z * self.z
    }

    /// `x² + z²`.
    pub fn horizontal_length_squared(&self) -> (r: i32)
        requires
            fits_i32(self.x * self.x + self.z * self.z),
        ensures
            r == self.x * self.x + self.z * self.z,
    {
        proof {
            assert(0 <= self.x * self.x) by (nonlinear_arith);
            assert(0 <= self.z * self.z) by (nonlinear_arith);
        }
        self.x * self.x + self.z * self.z
    }

    /// Componentwise sum.
    pub fn add(&self, other: &Vector3<i32>) -> (r: Self)
        requires
            fits_i32(self.x + other.x),
            fits_i32(self.y + other.y),
            fits_i32(self.z + other.z),
        ensures
            r.x == self.x + other.x,
            r.y == self.y + other.y,
            r.z == self.z + other.z,
    {
        Vector3 { x: self.x + other.x, y: self.y + other.y, z: self.z + other.z }
    }

    /// Adds the three given components.
    pub fn add_raw(&self, x: i32, y: i32, z: i32) -> (r: Self)
        requires
            fits_i32(self.x + x),
            fits_i32(self.y + y),
            fits_i32(self.z + z),
        ensures
            r.x == self.x + x,
            r.y == self.y + y,
            r.z == self.z + z,
    {
        Vector3 { x: self.x + x, y: self.y + y, z: self.z + z }
    }

    /// Componentwise difference.
    pub fn sub(&self, other: &Vector3<i32>) -> (r: Self)
        requires
            fits_i32(self.x - other.x),
            fits_i32(self.y - other.y),
            fits_i32(self.z - other.z),
        ensures
            r.x == self.x - other.x,
            r.y == self.y - other.y,
            r.z == self.z - other.z,
    {
        Vector3 { x: self.x - other.x, y: self.y - other.y, z: self.z - other.z }
    }

    /// Subtracts the three given components.
    pub fn sub_raw(&self, x: i32, y: i32, z: i32) -> (r: Self)
        requires
            fits_i32(self.x - x),
            fits_i32(self.y - y),
            fits_i32(self.z - z),
        ensures
            r.x == self.x - x,
            r.y == self.y - y,
            r.z == self.z - z,
    {
        Vector3 { x: self.x - x, y: self.y - y, z: self.z - z }
    }

    /// Componentwise product with the three given factors.
    pub fn multiply(self, x: i32, y: i32, z: i32) -> (r: Self)
        requires
            fits_i32(self.x * x),
            fits_i32(self.y * y),
            fits_i32(self.z * z),
        ensures
            r.x == self.x * x,
            r.y == self.y * y,
            r.z == self.z * z,
    {
        Vector3 { x: self.x * x, y: self.y * y, z: self.z * z }
    }

    /// `self + (other - self) * t`, componentwise.
    pub fn lerp(&self, other: &Vector3<i32>, t: i32) -> (r: Self)
        requires
            fits_i32(other.x - self.x),
            fits_i32(other.y - self.y),
            fits_i32(other.z - self.z),
            fits_i32((other.x - self.x) * t),
            fits_i32((other.y - self.y) * t),
            fits_i32((other.z - self.z) * t),
            fits_i32(self.x + (other.x - self.x) * t),
            fits_i32(self.y + (other.y - self.y) * t),
            fits_i32(self.z + (other.z - self.z) * t),
        ensures
            r.x == self.x + (other.x - self.x) * t,
            r.y == self.y + (other.y - self.y) * t,
            r.z == self.z + (other.z - self.z) * t,
    {
        Vector3 {
            x: self.x + (other.x - self.x) * t,
            y: self.y + (other.y - self.y) * t,
            z: self.z + (other.z - self.z) * t,
        }
    }

    /// Squared euclidean distance to `other`.
    pub fn squared_distance_to_vec(&self, other: Self) -> (r: i32)
        requires
            fits_i32(self.x - other.x),
            fits_i32(self.y - other.y),
            fits_i32(self.z - other.z),
            fits_i32(self.spec_squared_distance(other.x as int, other.y as int, other.z as int)),
        ensures
            r == self.spec_squared_distance(other.x as int, other.y as int, other.z as int),
    {
        self.squared_distance_to(other.x, other.y, other.z)
    }

    /// Squared euclidean distance to the point `(x, y, z)`.
    pub fn squared_distance_to(&self, x: i32, y: i32, z: i32) -> (r: i32)
        requires
            fits_i32(self.x - x),
            fits_i32(self.y - y),
            fits_i32(self.z - z),
            fits_i32(self.spec_squared_distance(x as int, y as int, z as int)),
        ensures
            r == self.spec_squared_distance(x as int, y as int, z as int),
    {
        let delta_x = self.x - x;
        let delta_y = self.y - y;
        let delta_z = self.z - z;
        proof {
            assert(0 <= delta_x * delta_x) by (nonlinear_arith);
            assert(0 <= delta_y * delta_y) by (nonlinear_arith);
            assert(0 <= delta_z * delta_z) by (nonlinear_arith);
        }
        delta_x * delta_x + delta_y * delta_y + delta_z * delta_z
    }

    /// Whether `self` lies in the box of half-extents `(x, y, z)` around `center`,
    /// borders included.
    pub fn is_within_bounds(&self, center: Self, x: i32, y: i32, z: i32) -> (r: bool)
        requires
            fits_i32(center.x - x),
            fits_i32(center.x + x),
            fits_i32(center.y - y),
            fits_i32(center.y + y),
            fits_i32(center.z - z),
            fits_i32(center.z + z),
        ensures
            r == (center.x - x <= self.x <= center.x + x && center.y - y <= self.y <= center.y
                + y && center.z - z <= self.z <= center.z + z),
    {
        let min_x = center.x - x;
        let max_x = center.x + x;
        let min_y = center.y - y;
        let max_y = center.y + y;
        let min_z = center.z - z;
        let max_z = center.z + z;
        self.x >= min_x && self.x <= max_x && self.y >= min_y && self.y <= max_y && self.z >= min_z
            && self.z <= max_z
    }

    /// The sign of each component: 1, -1 or 0.
    pub fn sign(&self) -> (r: Vector3<i32>)
        ensures
            r.x == sign_of(self.x as int),
            r.y == sign_of(self.y as int),
            r.z == sign_of(self.z as int),
    {
        Vector3 { x: sign_i32(self.x), y: sign_i32(self.y), z: sign_i32(self.z) }
    }

    /// The vector itself: its components are already whole numbers.
    pub fn to_i32(&self) -> (r: Vector3<i32>)
        ensures
            r == *self,
    {
        *self
    }

    /// The horizontal components `(x, z)`.
    pub fn to_vec2_i32(&self) -> (r: Vector2<i32>)
        ensures
            r == (Vector2 { x: self.x, y: self.z }),
    {
        Vector2 { x: self.x, y: self.z }
    }

    /// The block at this position.
    pub fn to_block_pos(&self) -> (r: BlockPos)
        ensures
            r.0 == *self,
    {
        BlockPos(*self)
    }
}

impl BlockPos {
    pub fn new(x: i32, y: i32, z: i32) -> (r: BlockPos)
        ensures
            r.0 == (Vector3 { x, y, z }),
    {
        BlockPos(Vector3 { x, y, z })
    }
}

/// Whether a position fits the packed layout: 22 bits for x and z, 20 for y.
pub open spec fn packable(v: Vector3<i32>) -> bool {
    -0x20_0000 <= v.x < 0x20_0000 && -0x20_0000 <= v.z < 0x20_0000 && -0x8_0000 <= v.y < 0x8_0000
}

/// The bits of a coordinate as a two's-complement 64-bit word.
pub open spec fn word_of(c: i32) -> u64 {
    #[verifier::truncate]
    ((c as i64) as u64)
}

/// The packed layout of a position, as an unsigned 64-bit word:
/// x in bits 42..64, z in bits 20..42, y in bits 0..20, each two's complement.
pub open spec fn packed_word(v: Vector3<i32>) -> u64 {
    ((word_of(v.x) & 0x3F_FFFFu64) << 42u64) | ((word_of(v.z) & 0x3F_FFFFu64) << 20u64) | (
    word_of(v.y) & 0xF_FFFFu64)
}

/// Packs a position into one long: x in bits 42..64, z in bits 20..42 and
/// y in bits 0..20, each field the low bits of the coordinate.
pub fn packed_chunk_pos(vec: &Vector3<i32>) -> (r: i64)
    ensures
        (#[verifier::truncate] (r as u64)) == packed_word(*vec),
{
    let x: u64 = #[verifier::truncate] ((vec.x as i64) as u64);
    let z: u64 = #[verifier::truncate] ((vec.z as i64) as u64);
    let y: u64 = #[verifier::truncate] ((vec.y as i64) as u64);
    let w: u64 = ((x & 0x3F_FFFF) << 42u64) | ((z & 0x3F_FFFF) << 20u64) | (y & 0xF_FFFF);
    assert((#[verifier::truncate] ((#[verifier::truncate] (w as i64)) as u64)) == w) by (bit_vector);
    #[verifier::truncate]
    (w as i64)
}

/// The position that a packed long stands for: each field sign-extended.
pub open spec fn unpacked(packed: i64) -> Vector3<i32> {
    Vector3 {
        x: (packed >> 42u64) as i32,
        y: ((packed << 44u64) >> 44u64) as i32,
        z: ((packed << 22u64) >> 42u64) as i32,
    }
}

/// Reads back a position packed by `packed_chunk_pos`, sign-extending each field.
pub fn unpack_chunk_pos(packed: i64) -> (r: Vector3<i32>)
    ensures
        r == unpacked(packed),
{
    let x = (packed >> 42u64) as i32;
    let z = ((packed << 22u64) >> 42u64) as i32;
    let y = ((packed << 44u64) >> 44u64) as i32;
    Vector3 { x, y, z }
}

/// Unpacking a packed position gives the position back, for every position
/// whose coordinates fit their fields.
pub proof fn lemma_packed_chunk_pos_round_trip(v: Vector3<i32>)
    requires
        packable(v),
    ensures
        unpacked(#[verifier::truncate] (packed_word(v) as i64)) == v,
{
    let w = packed_word(v);
    let packed: i64 = #[verifier::truncate] (w as i64);
    let (x, y, z) = (v.x, v.y, v.z);
    assert((packed >> 42u64) as i32 == x && ((packed << 22u64) >> 42u64) as i32 == z && ((packed
        << 44u64) >> 44u64) as i32 == y) by (bit_vector)
        requires
            -0x20_0000 <= x < 0x20_0000,
            -0x20_0000 <= z < 0x20_0000,
            -0x8_0000 <= y < 0x8_0000,
            w == ((((x as i64) as u64) & 0x3F_FFFFu64) << 42u64) | ((((z as i64) as u64)
                & 0x3F_FFFFu64) << 20u64) | (((y as i64) as u64) & 0xF_FFFFu64),
            packed == w as i64,
    ;
}

/// The low 16 bits of a coordinate.
pub open spec fn low16(c: i32) -> i16 {
    #[verifier::truncate]
    (c as i16)
}

/// The packed form of a chunk-local position: the low 16 bits of x shifted
/// by 8, of z shifted by 4, and of y, or-ed together.
pub open spec fn spec_packed_local(v: Vector3<i32>) -> i16 {
    (low16(v.x) << 8u16) | (low16(v.z) << 4u16) | low16(v.y)
}

/// Packs a chunk-local position: x in bits 8.., z in bits 4..8, y below,
/// each coordinate cut to 16 bits first.
pub fn packed_local(vec: &Vector3<i32>) -> (r: i16)
    ensures
        r == spec_packed_local(*vec),
        0 <= vec.x < 16 && 0 <= vec.z < 16 && 0 <= vec.y < 16 ==> r == vec.x * 256 + vec.z * 16
            + vec.y,
{
    let x: i16 = #[verifier::truncate] (vec.x as i16);
    let y: i16 = #[verifier::truncate] (vec.y as i16);
    let z: i16 = #[verifier::truncate] (vec.z as i16);
    if 0 <= vec.x && vec.x < 16 && 0 <= vec.z && vec.z < 16 && 0 <= vec.y && vec.y < 16 {
        assert((x << 8u16) | (z << 4u16) | y == x * 256 + z * 16 + y) by (bit_vector)
            requires
                0 <= x < 16,
                0 <= y < 16,
                0 <= z < 16,
        ;
    }
    (x << 8u16) | (z << 4u16) | y
}

} // verus!
