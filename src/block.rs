use std::collections::HashMap;

use vstd::prelude::*;
use vstd::string::StrSliceExecFns;

use crate::nbt::{NbtCompound, NbtValue, bits32, has_name, lookup};
use crate::vector::{BlockPos, Vector3};

verus! {

/// What a placed block replaces: the same block in some state, water of a
/// level in 0..16 (0 is a source), something else, or nothing.
#[derive(Clone, Copy, Debug, PartialEq, Eq, Structural)]
pub enum BlockIsReplacing {
    Itself(u16),
    Water(u8),
    Other,
    Nothing,
}

impl BlockIsReplacing {
    /// Whether the replaced block was a water source.
    pub fn water_source(&self) -> (r: bool)
        ensures
            r == (*self == BlockIsReplacing::Water(0)),
    {
        match self {
            BlockIsReplacing::Water(level) => *level == 0,
            _ => false,
        }
    }
}

/// Writes the fields every block entity stores: `id`, then `x`, `y`, `z`.
pub fn write_block_entity_header(nbt: &mut NbtCompound, id: &str, position: BlockPos)
    ensures
        final(nbt).value() == put_header(old(nbt).value(), id@, position),
{
    nbt.put_string("id", id.to_owned());
    nbt.put_int("x", position.0.x);
    nbt.put_int("y", position.0.y);
    nbt.put_int("z", position.0.z);
}

/// `put` of one named value, the first write winning.
pub open spec fn put_named(cs: Seq<(Seq<char>, NbtValue)>, name: Seq<char>, v: NbtValue) -> Seq<
    (Seq<char>, NbtValue),
> {
    if has_name(cs, name) {
        cs
    } else {
        cs.push((name, v))
    }
}

pub open spec fn put_header(cs: Seq<(Seq<char>, NbtValue)>, id: Seq<char>, p: BlockPos) -> Seq<
    (Seq<char>, NbtValue),
> {
    put_named(
        put_named(
            put_named(put_named(cs, "id"@, NbtValue::String(id)), "x"@, NbtValue::Int(p.0.x)),
            "y"@,
            NbtValue::Int(p.0.y),
        ),
        "z"@,
        NbtValue::Int(p.0.z),
    )
}

/// The position a block entity's compound names in `x`, `y` and `z`; none
/// when one of them is missing or not an Int.
pub fn block_entity_position(nbt: &NbtCompound) -> (r: Option<BlockPos>)
    ensures
        r == (match (lookup(nbt.value(), "x"@), lookup(nbt.value(), "y"@), lookup(nbt.value(), "z"@)) {
            (Some(NbtValue::Int(x)), Some(NbtValue::Int(y)), Some(NbtValue::Int(z))) => Some(
                BlockPos(Vector3 { x, y, z }),
            ),
            _ => None,
        }),
{
    let x = nbt.get_int("x");
    let y = nbt.get_int("y");
    let z = nbt.get_int("z");
    proof {
        reveal_strlit("x");
        reveal_strlit("y");
        reveal_strlit("z");
    }
    match (x, y, z) {
        (Some(x), Some(y), Some(z)) => Some(BlockPos(Vector3 { x, y, z })),
        _ => None,
    }
}

/// The block entity's type id: the index of its resource path in `types`.
pub fn block_entity_type_id(types: &[&str], resource_location: &str) -> (r: Option<u32>)
    requires
        types@.len() <= u32::MAX,
    ensures
        r matches Some(i) ==> i < types@.len() && types@[i as int]@ == resource_path(
            resource_location@,
        ) && forall|j: int| 0 <= j < i ==> types@[j]@ != resource_path(resource_location@),
        r is None ==> forall|j: int|
            0 <= j < types@.len() ==> types@[j]@ != resource_path(resource_location@),
{
    let path = path_of(resource_location);
    let mut i: usize = 0;
    while i < types.len()
        invariant
            i <= types@.len() <= u32::MAX,
            path@ == resource_path(resource_location@),
            forall|j: int| 0 <= j < i ==> types@[j]@ != resource_path(resource_location@),
        decreases types@.len() - i,
    {
        let candidate = types[i].to_owned();
        if candidate.eq(&path) {
            return Some(i as u32);
        }
        i = i + 1;
    }
    None
}

/// The part of a resource location after its last `:`; the whole text
/// when there is none.
pub open spec fn resource_path(s: Seq<char>) -> Seq<char>
    decreases s.len(),
{
    if s.len() == 0 {
        s
    } else if s.last() == ':' {
        Seq::empty()
    } else {
        resource_path(s.drop_last()).push(s.last())
    }
}

fn path_of(s: &str) -> (r: String)
    ensures
        r@ == resource_path(s@),
{
    let count = s.unicode_len();
    let mut start: usize = 0;
    let mut i: usize = 0;
    while i < count
        invariant
            start <= i <= count,
            count == s@.len(),
            resource_path(s@.subrange(0, i as int)) == s@.subrange(start as int, i as int),
        decreases count - i,
    {
        let c = s.get_char(i);
        proof {
            let next = s@.subrange(0, i + 1);
            assert(next.drop_last() =~= s@.subrange(0, i as int));
            assert(next.last() == c);
        }
        if c == ':' {
            start = i + 1;
            assert(s@.subrange(start as int, i + 1) =~= Seq::<char>::empty());
        } else {
            assert(s@.subrange(start as int, i as int).push(c) =~= s@.subrange(start as int, i + 1));
        }
        i = i + 1;
    }
    assert(s@.subrange(0, count as int) =~= s@);
    s.substring_char(start, count).to_owned()
}

/// The key of a block position: the bits of x, y and z side by side.
pub open spec fn pos_key(p: BlockPos) -> u128 {
    (bits32(p.0.x) as int * 0x1_0000_0000_0000_0000 + bits32(p.0.y) as int * 0x1_0000_0000
        + bits32(p.0.z) as int) as u128
}

fn key_of_pos(p: &BlockPos) -> (r: u128)
    ensures
        r == pos_key(*p),
{
    let x: u32 = #[verifier::truncate] (p.0.x as u32);
    let y: u32 = #[verifier::truncate] (p.0.y as u32);
    let z: u32 = #[verifier::truncate] (p.0.z as u32);
    (x as u128) * 0x1_0000_0000_0000_0000 + (y as u128) * 0x1_0000_0000 + (z as u128)
}

/// What a fluid's spread has found out so far: whether the block below each
/// checked position lets the fluid fall.
pub struct SpreadContext {
    holes: HashMap<u128, bool>,
}

impl SpreadContext {
    pub closed spec fn view(&self) -> Map<u128, bool> {
        self.holes@
    }

    pub fn new() -> (r: SpreadContext)
        ensures
            r.view() == Map::<u128, bool>::empty(),
    {
        SpreadContext { holes: HashMap::new() }
    }

    /// The answer found before for `pos`, if any.
    pub fn cached_hole(&self, pos: &BlockPos) -> (r: Option<bool>)
        ensures
            r == (if self.view().contains_key(pos_key(*pos)) {
                Some(self.view()[pos_key(*pos)])
            } else {
                None::<bool>
            }),
    {
        broadcast use vstd::std_specs::hash::group_hash_axioms;

        let k = key_of_pos(pos);
        match self.holes.get(&k) {
            Some(b) => Some(*b),
            None => None,
        }
    }

    /// Keeps the answer for `pos`.
    pub fn record_hole(&mut self, pos: &BlockPos, is_hole: bool)
        ensures
            final(self).view() == old(self).view().insert(pos_key(*pos), is_hole),
    {
        broadcast use vstd::std_specs::hash::group_hash_axioms;

        let k = key_of_pos(pos);
        self.holes.insert(k, is_hole);
    }
}

} // verus!
