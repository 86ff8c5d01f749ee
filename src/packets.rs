use base64::Engine;
use vstd::prelude::*;
use vstd::string::StringExecFns;

use crate::nbt::bits32;
use crate::wire::{varint, write_var_int};

verus! {

/// Appends a protocol string: its UTF-8 length as a VarInt, then the bytes.
pub open spec fn string_bytes(s: Seq<char>) -> Seq<u8> {
    varint(vstd::utf8::encode_utf8(s).len() as u32) + vstd::utf8::encode_utf8(s)
}

/// Writes a protocol string of at most `max` bytes; false, with nothing
/// written, when it is longer.
pub fn write_string_bounded(out: &mut Vec<u8>, s: &str, max: usize) -> (r: bool)
    requires
        max <= i32::MAX,
    ensures
        r == (vstd::utf8::encode_utf8(s@).len() <= max),
        r ==> final(out)@ == old(out)@ + string_bytes(s@),
        !r ==> final(out)@ == old(out)@,
{
    let bytes = s.as_bytes();
    if bytes.len() > max {
        return false;
    }
    write_var_int(out, bytes.len() as i32);
    assert(bits32(bytes@.len() as i32) == bytes@.len() as u32);
    let ghost mid = out@;
    let mut i: usize = 0;
    while i < bytes.len()
        invariant
            i <= bytes@.len(),
            out@ == mid + bytes@.subrange(0, i as int),
        decreases bytes@.len() - i,
    {
        out.push(bytes[i]);
        i = i + 1;
        assert(out@ =~= mid + bytes@.subrange(0, i as int));
    }
    assert(bytes@.subrange(0, bytes@.len() as int) =~= bytes@);
    assert(final(out)@ =~= old(out)@ + string_bytes(s@));
    true
}

/// The animations an entity can play.
#[derive(Clone, Copy, Debug, PartialEq, Eq, Structural)]
pub enum Animation {
    SwingMainArm,
    LeaveBed,
    SwingOffhand,
    CriticalEffect,
    MagicCriticaleffect,
}

pub open spec fn animation_id(a: Animation) -> u8 {
    match a {
        Animation::SwingMainArm => 0,
        Animation::LeaveBed => 2,
        Animation::SwingOffhand => 3,
        Animation::CriticalEffect => 4,
        Animation::MagicCriticaleffect => 5,
    }
}

impl Animation {
    /// The id of the animation on the wire.
    pub fn id(&self) -> (r: u8)
        ensures
            r == animation_id(*self),
    {
        match self {
            Animation::SwingMainArm => 0,
            Animation::LeaveBed => 2,
            Animation::SwingOffhand => 3,
            Animation::CriticalEffect => 4,
            Animation::MagicCriticaleffect => 5,
        }
    }
}

/// The packet that plays an animation on an entity.
pub struct CEntityAnimation {
    pub entity_id: i32,
    pub animation: u8,
}

impl CEntityAnimation {
    pub fn new(entity_id: i32, animation: Animation) -> (r: CEntityAnimation)
        ensures
            r.entity_id == entity_id,
            r.animation == animation_id(animation),
    {
        CEntityAnimation { entity_id, animation: animation.id() }
    }

    /// The entity id as a VarInt, then the animation byte.
    pub fn write_packet_data(&self, out: &mut Vec<u8>)
        ensures
            final(out)@ == old(out)@ + varint(bits32(self.entity_id)) + seq![self.animation],
    {
        write_var_int(out, self.entity_id);
        out.push(self.animation);
    }
}

/// The flags byte of a stop-sound packet: 1 for a category, 2 for a sound.
pub open spec fn stop_flags(category: bool, sound: bool) -> u8 {
    ((if category {
        1int
    } else {
        0
    }) + (if sound {
        2int
    } else {
        0
    })) as u8
}

/// The packet that stops a sound, or every sound of a category, or all sounds.
pub struct CStopSound {
    sound_id: Option<String>,
    category: Option<i32>,
}

impl CStopSound {
    pub closed spec fn sound(&self) -> Option<Seq<char>> {
        match self.sound_id {
            Some(s) => Some(s@),
            None => None,
        }
    }

    pub closed spec fn category_id(&self) -> Option<i32> {
        self.category
    }

    /// `category` is the sound category's id.
    pub fn new(sound_id: Option<String>, category: Option<i32>) -> (r: CStopSound)
        ensures
            r.sound() == (match sound_id {
                Some(s) => Some(s@),
                None => None::<Seq<char>>,
            }),
            r.category_id() == category,
    {
        CStopSound { sound_id, category }
    }

    /// A flags byte (1 for a category, 2 for a sound), the category as a
    /// VarInt, then the sound's resource location; false when that is longer
    /// than 32767 bytes.
    pub fn write_packet_data(&self, out: &mut Vec<u8>) -> (r: bool)
        ensures
            r == (match self.sound() {
                Some(s) => vstd::utf8::encode_utf8(s).len() <= 32767,
                None => true,
            }),
            r ==> final(out)@ == old(out)@ + seq![stop_flags(self.category_id() is Some, self.sound() is Some)] + (match self.category_id() {
                Some(c) => varint(bits32(c)),
                None => Seq::empty(),
            }) + (match self.sound() {
                Some(s) => string_bytes(s),
                None => Seq::empty(),
            }),
    {
        let flags: u8 = (if self.category.is_some() {
            1u8
        } else {
            0u8
        }) + (if self.sound_id.is_some() {
            2u8
        } else {
            0u8
        });
        out.push(flags);
        match self.category {
            Some(c) => write_var_int(out, c),
            None => {},
        }
        let ghost after_category = out@;
        match &self.sound_id {
            Some(s) => {
                let ok = write_string_bounded(out, s.as_str(), 32767);
                if !ok {
                    return false;
                }
            },
            None => {},
        }
        assert(final(out)@ =~= after_category + (match self.sound() {
            Some(s) => string_bytes(s),
            None => Seq::empty(),
        }));
        true
    }
}

/// A character takes at most four bytes of UTF-8.
proof fn lemma_utf8_len_bound(s: Seq<char>)
    ensures
        vstd::utf8::encode_utf8(s).len() <= 4 * s.len(),
    decreases s.len(),
{
    if s.len() > 0 {
        lemma_utf8_len_bound(s.drop_first());
    }
}

/// The brand that the server announces.
pub const BRAND: &'static str = "Pumpkin";

/// The brand message body: the brand's length as a VarInt, then its bytes.
pub struct CachedBranding {
    cached_server_brand: Vec<u8>,
}

impl CachedBranding {
    pub closed spec fn bytes(&self) -> Seq<u8> {
        self.cached_server_brand@
    }

    pub fn new() -> (r: CachedBranding)
        ensures
            r.bytes() == string_bytes(BRAND@),
    {
        CachedBranding { cached_server_brand: Self::build_brand() }
    }

    /// The cached brand bytes.
    pub fn get_branding(&self) -> (r: &[u8])
        ensures
            r@ == self.bytes(),
    {
        self.cached_server_brand.as_slice()
    }

    fn build_brand() -> (r: Vec<u8>)
        ensures
            r@ == string_bytes(BRAND@),
    {
        let mut buf: Vec<u8> = Vec::new();
        proof {
            reveal_strlit("Pumpkin");
            lemma_utf8_len_bound(BRAND@);
        }
        let ok = write_string_bounded(&mut buf, BRAND, 32767);
        buf
    }
}

/// What base64 (standard alphabet, padded) makes of some bytes.
pub uninterp spec fn base64_of(bytes: Seq<u8>) -> Seq<char>;

/// Relies on `base64::engine::general_purpose::STANDARD.encode_string`: it
/// appends the padded standard base64 of `input` to `out`, four characters
/// for each started group of three bytes.
#[verifier::external_body]
fn append_base64(out: &mut String, input: &[u8])
    ensures
        final(out)@ == old(out)@ + base64_of(input@),
        final(out)@.len() == old(out)@.len() + 4 * ((input@.len() + 2) / 3),
{
    base64::engine::general_purpose::STANDARD.encode_string(input, out);
}

/// A PNG as a data URL: the prefix `data:image/png;base64,` and the base64
/// of its bytes.
pub fn load_icon_from_bytes(png_data: &[u8]) -> (r: String)
    requires
        png_data@.len() > 0,
    ensures
        r@ == "data:image/png;base64,"@ + base64_of(png_data@),
        r@.len() == 22 + 4 * ((png_data@.len() + 2) / 3),
{
    proof {
        reveal_strlit("data:image/png;base64,");
    }
    let mut result = String::from_str("data:image/png;base64,");
    append_base64(&mut result, png_data);
    result
}

/// The tags of one registry: the registry's resource location and, for
/// each tag, its name and the ids of its entries.
pub struct RegistryTags {
    pub registry: String,
    pub tags: Vec<(String, Vec<i32>)>,
}

/// VarInts one after another.
pub open spec fn ids_bytes(ids: Seq<i32>) -> Seq<u8>
    decreases ids.len(),
{
    if ids.len() == 0 {
        Seq::empty()
    } else {
        ids_bytes(ids.drop_last()) + varint(bits32(ids.last()))
    }
}

pub open spec fn tag_bytes(t: (String, Vec<i32>)) -> Seq<u8> {
    string_bytes(t.0@) + varint(t.1@.len() as u32) + ids_bytes(t.1@)
}

pub open spec fn tags_bytes(ts: Seq<(String, Vec<i32>)>) -> Seq<u8>
    decreases ts.len(),
{
    if ts.len() == 0 {
        Seq::empty()
    } else {
        tags_bytes(ts.drop_last()) + tag_bytes(ts.last())
    }
}

pub open spec fn registry_bytes(r: RegistryTags) -> Seq<u8> {
    string_bytes(r.registry@) + varint(r.tags@.len() as u32) + tags_bytes(r.tags@)
}

pub open spec fn registries_bytes(rs: Seq<RegistryTags>) -> Seq<u8>
    decreases rs.len(),
{
    if rs.len() == 0 {
        Seq::empty()
    } else {
        registries_bytes(rs.drop_last()) + registry_bytes(rs.last())
    }
}

/// Names fit a string field and lengths fit a VarInt.
pub open spec fn registry_fits(r: RegistryTags) -> bool {
    &&& vstd::utf8::encode_utf8(r.registry@).len() <= 32767
    &&& r.tags@.len() <= i32::MAX
    &&& forall|j: int|
        0 <= j < r.tags@.len() ==> vstd::utf8::encode_utf8(#[trigger] r.tags@[j].0@).len()
            <= u16::MAX && r.tags@[j].1@.len() <= i32::MAX
}

/// The packet that sends the tags of some registries.
pub struct CUpdateTags<'a> {
    tags: &'a [RegistryTags],
}

impl<'a> CUpdateTags<'a> {
    pub closed spec fn registries(&self) -> Seq<RegistryTags> {
        self.tags@
    }

    pub fn new(tags: &'a [RegistryTags]) -> (r: Self)
        ensures
            r.registries() == tags@,
    {
        CUpdateTags { tags }
    }

    /// The number of registries, then for each its resource location, the
    /// number of its tags and, per tag, the name and the ids. False when a
    /// name or a length does not fit.
    pub fn write_packet_data(&self, out: &mut Vec<u8>) -> (r: bool)
        ensures
            r == (self.registries().len() <= i32::MAX && forall|i: int|
                0 <= i < self.registries().len() ==> registry_fits(#[trigger] self.registries()[i])),
            r ==> final(out)@ == old(out)@ + varint(self.registries().len() as u32)
                + registries_bytes(self.registries()),
    {
        let rs = self.tags;
        if rs.len() > 0x7FFF_FFFF {
            return false;
        }
        write_var_int(out, rs.len() as i32);
        assert(bits32(rs@.len() as i32) == rs@.len() as u32);
        let ghost start = out@;
        let mut i: usize = 0;
        while i < rs.len()
            invariant
                i <= rs@.len(),
                rs@ == self.registries(),
                forall|k: int| 0 <= k < i ==> registry_fits(#[trigger] rs@[k]),
                out@ == start + registries_bytes(rs@.subrange(0, i as int)),
            decreases rs@.len() - i,
        {
            if !write_registry(out, &rs[i]) {
                return false;
            }
            proof {
                assert(rs@.subrange(0, i + 1).drop_last() =~= rs@.subrange(0, i as int));
            }
            i = i + 1;
        }
        assert(rs@.subrange(0, rs@.len() as int) =~= rs@);
        true
    }
}

fn write_registry(out: &mut Vec<u8>, r: &RegistryTags) -> (ok: bool)
    ensures
        ok == registry_fits(*r),
        ok ==> final(out)@ == old(out)@ + registry_bytes(*r),
{
    if !write_string_bounded(out, r.registry.as_str(), 32767) {
        return false;
    }
    if r.tags.len() > 0x7FFF_FFFF {
        return false;
    }
    write_var_int(out, r.tags.len() as i32);
    assert(bits32(r.tags@.len() as i32) == r.tags@.len() as u32);
    let ghost start = out@;
    let mut j: usize = 0;
    while j < r.tags.len()
        invariant
            j <= r.tags@.len(),
            forall|k: int|
                0 <= k < j ==> vstd::utf8::encode_utf8(#[trigger] r.tags@[k].0@).len() <= u16::MAX
                    && r.tags@[k].1@.len() <= i32::MAX,
            out@ == start + tags_bytes(r.tags@.subrange(0, j as int)),
        decreases r.tags@.len() - j,
    {
        let (name, ids) = &r.tags[j];
        if !write_string_bounded(out, name.as_str(), 65535) {
            return false;
        }
        if ids.len() > 0x7FFF_FFFF {
            return false;
        }
        write_var_int(out, ids.len() as i32);
        assert(bits32(ids@.len() as i32) == ids@.len() as u32);
        let ghost mid = out@;
        let mut k: usize = 0;
        while k < ids.len()
            invariant
                k <= ids@.len(),
                out@ == mid + ids_bytes(ids@.subrange(0, k as int)),
            decreases ids@.len() - k,
        {
            write_var_int(out, ids[k]);
            proof {
                assert(ids@.subrange(0, k + 1).drop_last() =~= ids@.subrange(0, k as int));
            }
            k = k + 1;
        }
        assert(ids@.subrange(0, ids@.len() as int) =~= ids@);
        proof {
            assert(r.tags@.subrange(0, j + 1).drop_last() =~= r.tags@.subrange(0, j as int));
            assert(out@ =~= start + tags_bytes(r.tags@.subrange(0, j + 1)));
        }
        j = j + 1;
    }
    assert(r.tags@.subrange(0, r.tags@.len() as int) =~= r.tags@);
    assert(final(out)@ =~= old(out)@ + registry_bytes(*r));
    true
}

} // verus!
