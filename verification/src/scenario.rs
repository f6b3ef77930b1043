//! The scenario encoder: composes the tile grid and the entity
//! records into the full binary asset. The output is a plaintext
//! header (version tag, header fields, length-prefixed instructions)
//! followed by the body — every player, message, image, resource and
//! unit section at its fixed position — compressed as a raw deflate
//! stream with a sync flush.
//!
//! Every byte of the header and of the uncompressed body is pinned
//! by the specification functions here; only the deflate transform
//! itself is delegated to the compression crate.

use vstd::prelude::*;

use crate::bytes::{
    le2, le4, byte_run, i16_le, i32_le, u16_le, u32_le, push_byte, push_byte_run, push_bytes,
    push_i16_le, push_i32_le, push_u16_le, push_u32_le,
};
use crate::fbits::{f32_bits_of_uint, u32_to_f32_bits};
use crate::map::{map_bytes, GridView, TileMap};
use crate::player::Player;
use crate::unit::{unit_bytes, Unit};

verus! {

/// The 32-bit separator constant written between major body
/// sections: a format fingerprint, not a length.
pub const HEADER_SEPARATOR: u32 = 0xFFFFFF9D;

/// IEEE-754 bits of the body's float version marker 1.22.
pub const VERSION_FLOAT_BITS: u32 = 0x3F9C28F6;

/// IEEE-754 bits of -1.0, a fixed marker before the filename.
pub const NEG_ONE_FLOAT_BITS: u32 = 0xBF80_0000;

/// IEEE-754 bits of 101.0, the fixed camera value of the playable
/// player blocks.
pub const CAMERA_FLOAT_BITS: u32 = 0x42CA_0000;

/// IEEE-754 bits of 2.0, a fixed marker inside the playable player
/// blocks.
pub const TWO_FLOAT_BITS: u32 = 0x4000_0000;

/// The message bundle: six free-text fields, kept as encoded bytes.
pub struct ScenMessages {
    pub objectives: Vec<u8>,
    pub hints: Vec<u8>,
    pub scouts: Vec<u8>,
    pub history: Vec<u8>,
    pub victory: Vec<u8>,
    pub loss: Vec<u8>,
}

/// The preview-image descriptor.
pub struct ScenImage {
    pub filename: Vec<u8>,
    pub included: bool,
    pub width: i32,
    pub height: i32,
    pub include_mode: i16,
}

/// The root aggregate handed to the encoder: format version and
/// header fields, the instructions text, the players, the message
/// bundle, the image descriptor, and the map.
pub struct ScenHeader {
    pub version: [u8; 4],
    pub header_type: i32,
    pub timestamp: i32,
    pub instructions: Vec<u8>,
    pub players: Vec<Player>,
    pub filename: Vec<u8>,
    pub messages: ScenMessages,
    pub image: ScenImage,
    pub map: TileMap,
}

/// The one way an encode can fail: a player name too long for its
/// fixed 256-byte slot. Nothing else can go wrong in memory: the
/// body builders cannot fail, and a sync-flushed deflate of a body
/// this size always completes.
#[derive(Clone, Copy, Debug, PartialEq, Eq, Structural)]
pub enum EncodeError {
    NameTooLong,
}

/// Every player name fits the format: at most 255 encoded bytes.
pub open spec fn names_ok(players: Seq<Player>) -> bool {
    forall|i: int| 0 <= i < players.len() ==> #[trigger] players[i].name@.len() <= 255
}

impl ScenHeader {
    /// The structural bounds the format forces: at most 16 players,
    /// a full map, and text fields short enough for their
    /// fixed-width length prefixes.
    pub open spec fn wf(self) -> bool {
        &&& self.map@.wf()
        &&& self.players@.len() <= 16
        &&& self.instructions@.len() <= 0x7FFF_FFDF
        &&& self.filename@.len() <= 0xFFFF
        &&& self.image.filename@.len() <= 0xFFFF
        &&& self.messages.objectives@.len() <= 0xFFFE
        &&& self.messages.hints@.len() <= 0xFFFE
        &&& self.messages.scouts@.len() <= 0xFFFE
        &&& self.messages.history@.len() <= 0xFFFE
        &&& self.messages.victory@.len() <= 0xFFFE
        &&& self.messages.loss@.len() <= 0xFFFE
        &&& forall|i: int|
            0 <= i < self.players@.len() ==> #[trigger] self.players@[i].units@.len()
                <= 0xFFFF_FFFF
    }
}

/// The uncompressed plaintext prefix: version tag, header length,
/// header type, timestamp, length-prefixed instructions, a reserved
/// zero, and the player count.
pub open spec fn plain_header_bytes(h: ScenHeader) -> Seq<u8> {
    h.version@ + le4(20 + h.instructions@.len() as int) + i32_le(h.header_type) + i32_le(h.timestamp)
        + le4(h.instructions@.len() as int) + h.instructions@ + le4(0) + le4(
        h.players@.len() as int,
    )
}

/// One of the sixteen fixed-width name slots: the name's bytes
/// padded with zeros to 256, or an all-zero slot past the supplied
/// players.
pub open spec fn name_slot(players: Seq<Player>, i: int) -> Seq<u8> {
    if 0 <= i < players.len() {
        players[i].name@ + byte_run(0, (256 - players[i].name@.len()) as nat)
    } else {
        byte_run(0, 256)
    }
}

pub open spec fn name_slots(players: Seq<Player>, n: nat) -> Seq<u8>
    decreases n,
{
    if n == 0 {
        Seq::empty()
    } else {
        name_slots(players, (n - 1) as nat) + name_slot(players, (n - 1) as int)
    }
}

/// One of the sixteen player-attribute blocks: active flag,
/// human/AI flag, civilization code, and a constant four.
pub open spec fn attr_slot(players: Seq<Player>, i: int) -> Seq<u8> {
    if 0 <= i < players.len() {
        u32_le(players[i].active) + u32_le(players[i].human) + le4(players[i].civilization as int)
            + le4(4)
    } else {
        le4(0) + le4(0) + le4(0) + le4(4)
    }
}

pub open spec fn attr_slots(players: Seq<Player>, n: nat) -> Seq<u8>
    decreases n,
{
    if n == 0 {
        Seq::empty()
    } else {
        attr_slots(players, (n - 1) as nat) + attr_slot(players, (n - 1) as int)
    }
}

/// One of the sixteen integer resource records: food, wood, gold,
/// stone, ore, and a reserved zero; all zero past the supplied
/// players.
pub open spec fn resource_slot(players: Seq<Player>, i: int) -> Seq<u8> {
    if 0 <= i < players.len() {
        u32_le(players[i].resources.food) + u32_le(players[i].resources.wood) + u32_le(
            players[i].resources.gold,
        ) + u32_le(players[i].resources.stone) + u32_le(players[i].resources.ore) + le4(0)
    } else {
        byte_run(0, 24)
    }
}

pub open spec fn resource_slots(players: Seq<Player>, n: nat) -> Seq<u8>
    decreases n,
{
    if n == 0 {
        Seq::empty()
    } else {
        resource_slots(players, (n - 1) as nat) + resource_slot(players, (n - 1) as int)
    }
}

/// One of the eight float resource records: the same five counters
/// as IEEE-754 single-precision values, then two reserved zero
/// floats.
pub open spec fn float_resource_slot(players: Seq<Player>, i: int) -> Seq<u8> {
    if 0 <= i < players.len() {
        le4(f32_bits_of_uint(players[i].resources.food)) + le4(
            f32_bits_of_uint(players[i].resources.wood),
        ) + le4(f32_bits_of_uint(players[i].resources.gold)) + le4(
            f32_bits_of_uint(players[i].resources.stone),
        ) + le4(f32_bits_of_uint(players[i].resources.ore)) + le4(0) + le4(0)
    } else {
        byte_run(0, 28)
    }
}

pub open spec fn float_resource_slots(players: Seq<Player>, n: nat) -> Seq<u8>
    decreases n,
{
    if n == 0 {
        Seq::empty()
    } else {
        float_resource_slots(players, (n - 1) as nat) + float_resource_slot(
            players,
            (n - 1) as int,
        )
    }
}

/// The concatenated 29-byte records of the first `n` units.
pub open spec fn units_bytes(us: Seq<Unit>, n: nat) -> Seq<u8>
    decreases n,
{
    if n == 0 {
        Seq::empty()
    } else {
        units_bytes(us, (n - 1) as nat) + unit_bytes(us[(n - 1) as int])
    }
}

/// One of the nine unit-list sections: slot zero and slots past the
/// supplied players hold a zero count; slot `i` of a supplied player
/// holds the unit count then each unit record.
pub open spec fn units_list(players: Seq<Player>, i: int) -> Seq<u8> {
    if i > 0 && players.len() >= i {
        le4(players[i - 1].units@.len() as int) + units_bytes(
            players[i - 1].units@,
            players[i - 1].units@.len(),
        )
    } else {
        le4(0)
    }
}

pub open spec fn units_lists(players: Seq<Player>, n: nat) -> Seq<u8>
    decreases n,
{
    if n == 0 {
        Seq::empty()
    } else {
        units_lists(players, (n - 1) as nat) + units_list(players, (n - 1) as int)
    }
}

/// The placeholder name written in each playable-player block.
pub open spec fn playable_name() -> Seq<u8> {
    seq![0x50u8, 0x72u8, 0x6Fu8, 0x6Du8, 0x69u8, 0x73u8, 0x6Fu8, 0x72u8, 0x79u8]
}

/// The placeholder name written for each unused player slot.
pub open spec fn unused_name() -> Seq<u8> {
    seq![0x52u8, 0x61u8, 0x6Eu8, 0x64u8, 0x6Fu8, 0x6Du8, 0x47u8, 0x61u8, 0x6Du8, 0x65u8]
}

/// One of the eight playable-player blocks, for player number
/// `i + 1`: a placeholder name, fixed camera and diplomacy
/// sub-records, the player color, and trailing markers.
pub open spec fn playable_slot(i: int) -> Seq<u8> {
    le2(9) + playable_name() + le4(CAMERA_FLOAT_BITS as int) + le4(CAMERA_FLOAT_BITS as int)
        + le2(101) + le2(101) + seq![0u8] + le2(9) + byte_run(0, 9) + byte_run(0, 36) + le4(i + 1)
        + le4(TWO_FLOAT_BITS as int) + le2(0) + byte_run(0, 15) + byte_run(0xFF, 4)
}

pub open spec fn playable_slots(n: nat) -> Seq<u8>
    decreases n,
{
    if n == 0 {
        Seq::empty()
    } else {
        playable_slots((n - 1) as nat) + playable_slot((n - 1) as int)
    }
}

/// One nul-terminated message field: a 16-bit length counting the
/// terminator, the bytes, and the terminator.
pub open spec fn msg_field(m: Seq<u8>) -> Seq<u8> {
    le2(1 + m.len() as int) + m + seq![0u8]
}

/// The message section: six reserved string-table slots, then the
/// six fields in the format's fixed order (objectives, hints,
/// victory, loss, history, scouts).
pub open spec fn messages_bytes(ms: ScenMessages) -> Seq<u8> {
    byte_run(0, 24) + msg_field(ms.objectives@) + msg_field(ms.hints@) + msg_field(ms.victory@)
        + msg_field(ms.loss@) + msg_field(ms.history@) + msg_field(ms.scouts@)
}

/// The image descriptor section: length-prefixed filename, the
/// included flag as a 32-bit value, width, height, and the 16-bit
/// include mode.
pub open spec fn image_bytes(im: ScenImage) -> Seq<u8> {
    le2(im.filename@.len() as int) + im.filename@ + le4(
        if im.included {
            1int
        } else {
            0int
        },
    ) + i32_le(im.width) + i32_le(im.height) + i16_le(im.include_mode)
}

/// The eight unused-player name records: a 16-bit length and the
/// placeholder name, eight times.
pub open spec fn unused_names(n: nat) -> Seq<u8>
    decreases n,
{
    if n == 0 {
        Seq::empty()
    } else {
        unused_names((n - 1) as nat) + le2(10) + unused_name()
    }
}

/// The whole uncompressed body, section by section, exactly as the
/// format lays it out.
pub open spec fn scen_body_bytes(h: ScenHeader) -> Seq<u8> {
    le4(19246) + le4(VERSION_FLOAT_BITS as int) + name_slots(h.players@, 16) + byte_run(0, 64)
        + attr_slots(h.players@, 16) + le4(1) + seq![0u8] + le4(NEG_ONE_FLOAT_BITS as int) + le2(
        h.filename@.len() as int,
    ) + h.filename@ + messages_bytes(h.messages) + byte_run(0, 6) + image_bytes(h.image)
        + byte_run(0, 64) + byte_run(0, 16) + unused_names(8) + byte_run(0, 96) + byte_run(0, 96)
        + byte_run(0, 8) + byte_run(0, 8) + u32_le(HEADER_SEPARATOR) + resource_slots(
        h.players@,
        16,
    ) + u32_le(HEADER_SEPARATOR) + byte_run(0, 40) + byte_run(0, 1024) + byte_run(0, 11520)
        + u32_le(HEADER_SEPARATOR) + byte_run(0, 64) + byte_run(0, 32) + byte_run(0xFF, 32)
        + byte_run(0xFF, 1920) + byte_run(0, 32) + byte_run(0xFF, 32) + byte_run(0xFF, 1920)
        + byte_run(0, 32) + byte_run(0xFF, 32) + byte_run(0xFF, 1280) + byte_run(0, 12)
        + byte_run(0, 32) + le4(0) + byte_run(0xFF, 28) + u32_le(HEADER_SEPARATOR) + byte_run(
        0,
        8,
    ) + le4(0) + map_bytes(h.map@) + le4(9) + float_resource_slots(h.players@, 8) + units_lists(
        h.players@,
        9,
    ) + le4(9) + playable_slots(8) + le4(0x9999_999A) + le4(0x3FF9_9999) + seq![0u8] + le4(0)
        + byte_run(0, 8)
}

/// The finished file: the plaintext header followed by the deflated
/// body.
pub open spec fn scen_bytes(h: ScenHeader) -> Seq<u8> {
    plain_header_bytes(h) + deflate_of(scen_body_bytes(h))
}

/// What the compression crate returns for a byte sequence: a raw
/// deflate stream at the default level, completed by a sync flush.
/// Named rather than spelled out; the format only requires that the
/// body decompress back to its exact bytes.
pub uninterp spec fn deflate_of(data: Seq<u8>) -> Seq<u8>;

/// Relies on flate2::Compress::compress_vec with `FlushCompress::Sync`,
/// no zlib header, default level: the output is a raw deflate stream,
/// a function of the input bytes alone. One call on a fresh
/// compressor always succeeds: the pure-Rust backend never errors for
/// valid parameters, and a sync-flushed stream falls back to stored
/// blocks on expansion, so its size stays well below the reserved
/// `len + len / 2 + 256` capacity — the call consumes all input and
/// completes the flush with room to spare. The defensive checks only
/// guard the contract against that reasoning being wrong.
#[verifier::external_body]
fn deflate_sync(data: &Vec<u8>) -> (r: Option<Vec<u8>>)
    ensures
        r is Some,
        r matches Some(out) ==> out@ == deflate_of(data@),
{
    let cap = data.len() + data.len() / 2 + 256;
    let mut out: Vec<u8> = Vec::with_capacity(cap);
    let mut c = flate2::Compress::new(flate2::Compression::default(), false);
    match c.compress_vec(data.as_slice(), &mut out, flate2::FlushCompress::Sync) {
        Ok(_) => {
            if c.total_in() == data.len() as u64 && out.len() < cap {
                Some(out)
            } else {
                None
            }
        },
        Err(_) => None,
    }
}

} // verus!

verus! {

/// Appends one nul-terminated, length-prefixed message field.
fn push_msg_field(buf: &mut Vec<u8>, m: &Vec<u8>)
    requires
        m@.len() <= 0xFFFE,
    ensures
        final(buf)@ == old(buf)@ + msg_field(m@),
{
    push_u16_le(buf, 1 + (m.len() as u16));
    push_bytes(buf, m);
    push_byte(buf, 0);
    assert(final(buf)@ =~= old(buf)@ + msg_field(m@));
}

/// Appends the message section.
fn push_messages(buf: &mut Vec<u8>, ms: &ScenMessages)
    requires
        ms.objectives@.len() <= 0xFFFE,
        ms.hints@.len() <= 0xFFFE,
        ms.victory@.len() <= 0xFFFE,
        ms.loss@.len() <= 0xFFFE,
        ms.history@.len() <= 0xFFFE,
        ms.scouts@.len() <= 0xFFFE,
    ensures
        final(buf)@ == old(buf)@ + messages_bytes(*ms),
{
    push_byte_run(buf, 0, 24);
    push_msg_field(buf, &ms.objectives);
    push_msg_field(buf, &ms.hints);
    push_msg_field(buf, &ms.victory);
    push_msg_field(buf, &ms.loss);
    push_msg_field(buf, &ms.history);
    push_msg_field(buf, &ms.scouts);
    assert(final(buf)@ =~= old(buf)@ + messages_bytes(*ms));
}

/// Appends the image descriptor section.
fn push_image(buf: &mut Vec<u8>, im: &ScenImage)
    requires
        im.filename@.len() <= 0xFFFF,
    ensures
        final(buf)@ == old(buf)@ + image_bytes(*im),
{
    push_u16_le(buf, im.filename.len() as u16);
    push_bytes(buf, &im.filename);
    push_i32_le(buf, if im.included { 1 } else { 0 });
    push_i32_le(buf, im.width);
    push_i32_le(buf, im.height);
    push_i16_le(buf, im.include_mode);
    assert(final(buf)@ =~= old(buf)@ + image_bytes(*im));
}

/// Appends the sixteen fixed-width player-name slots.
fn push_name_slots(buf: &mut Vec<u8>, players: &Vec<Player>)
    requires
        names_ok(players@),
    ensures
        final(buf)@ == old(buf)@ + name_slots(players@, 16),
{
    let mut i: usize = 0;
    while i < 16
        invariant
            i <= 16,
            names_ok(players@),
            buf@ == old(buf)@ + name_slots(players@, i as nat),
        decreases 16 - i,
    {
        if i < players.len() {
            let name = &players[i].name;
            push_bytes(buf, name);
            push_byte_run(buf, 0, 256 - name.len());
        } else {
            push_byte_run(buf, 0, 256);
        }
        assert(buf@ =~= old(buf)@ + name_slots(players@, (i + 1) as nat));
        i = i + 1;
    }
}

/// Appends the sixteen player-attribute blocks.
fn push_attr_slots(buf: &mut Vec<u8>, players: &Vec<Player>)
    ensures
        final(buf)@ == old(buf)@ + attr_slots(players@, 16),
{
    let mut i: usize = 0;
    while i < 16
        invariant
            i <= 16,
            buf@ == old(buf)@ + attr_slots(players@, i as nat),
        decreases 16 - i,
    {
        if i < players.len() {
            let p = &players[i];
            push_u32_le(buf, p.active);
            push_u32_le(buf, p.human);
            push_u32_le(buf, p.civilization as u32);
            push_u32_le(buf, 4);
        } else {
            push_u32_le(buf, 0);
            push_u32_le(buf, 0);
            push_u32_le(buf, 0);
            push_u32_le(buf, 4);
        }
        assert(buf@ =~= old(buf)@ + attr_slots(players@, (i + 1) as nat));
        i = i + 1;
    }
}

/// Appends the sixteen integer resource records.
fn push_resource_slots(buf: &mut Vec<u8>, players: &Vec<Player>)
    ensures
        final(buf)@ == old(buf)@ + resource_slots(players@, 16),
{
    let mut i: usize = 0;
    while i < 16
        invariant
            i <= 16,
            buf@ == old(buf)@ + resource_slots(players@, i as nat),
        decreases 16 - i,
    {
        if i < players.len() {
            let p = &players[i];
            push_u32_le(buf, p.resources.food);
            push_u32_le(buf, p.resources.wood);
            push_u32_le(buf, p.resources.gold);
            push_u32_le(buf, p.resources.stone);
            push_u32_le(buf, p.resources.ore);
            push_u32_le(buf, 0);
        } else {
            push_byte_run(buf, 0, 24);
        }
        assert(buf@ =~= old(buf)@ + resource_slots(players@, (i + 1) as nat));
        i = i + 1;
    }
}

/// Appends the eight float resource records.
fn push_float_resource_slots(buf: &mut Vec<u8>, players: &Vec<Player>)
    ensures
        final(buf)@ == old(buf)@ + float_resource_slots(players@, 8),
{
    let mut i: usize = 0;
    while i < 8
        invariant
            i <= 8,
            buf@ == old(buf)@ + float_resource_slots(players@, i as nat),
        decreases 8 - i,
    {
        if i < players.len() {
            let p = &players[i];
            push_u32_le(buf, u32_to_f32_bits(p.resources.food));
            push_u32_le(buf, u32_to_f32_bits(p.resources.wood));
            push_u32_le(buf, u32_to_f32_bits(p.resources.gold));
            push_u32_le(buf, u32_to_f32_bits(p.resources.stone));
            push_u32_le(buf, u32_to_f32_bits(p.resources.ore));
            push_u32_le(buf, 0);
            push_u32_le(buf, 0);
        } else {
            push_byte_run(buf, 0, 28);
        }
        assert(buf@ =~= old(buf)@ + float_resource_slots(players@, (i + 1) as nat));
        i = i + 1;
    }
}

/// Appends the nine per-player unit-list sections.
fn push_unit_lists(buf: &mut Vec<u8>, players: &Vec<Player>)
    requires
        players@.len() <= 16,
        forall|i: int|
            0 <= i < players@.len() ==> #[trigger] players@[i].units@.len() <= 0xFFFF_FFFF,
    ensures
        final(buf)@ == old(buf)@ + units_lists(players@, 9),
{
    let mut i: usize = 0;
    while i < 9
        invariant
            i <= 9,
            players@.len() <= 16,
            forall|k: int|
                0 <= k < players@.len() ==> #[trigger] players@[k].units@.len() <= 0xFFFF_FFFF,
            buf@ == old(buf)@ + units_lists(players@, i as nat),
        decreases 9 - i,
    {
        if i > 0 && players.len() >= i {
            let units = &players[i - 1].units;
            push_u32_le(buf, units.len() as u32);
            let ghost mark = buf@;
            let mut j: usize = 0;
            while j < units.len()
                invariant
                    j <= units@.len(),
                    buf@ == mark + units_bytes(units@, j as nat),
                decreases units@.len() - j,
            {
                let ub = units[j].to_bytes();
                push_bytes(buf, &ub);
                j = j + 1;
            }
        } else {
            push_u32_le(buf, 0);
        }
        assert(buf@ =~= old(buf)@ + units_lists(players@, (i + 1) as nat));
        i = i + 1;
    }
}

/// Appends one playable-player block, for player number `num`.
#[verifier::rlimit(100)]
#[verifier::spinoff_prover]
fn push_playable_slot(buf: &mut Vec<u8>, num: u32)
    requires
        1 <= num <= 8,
    ensures
        final(buf)@ == old(buf)@ + playable_slot(num - 1),
{
    push_i16_le(buf, 9);
    buf.push(0x50);
    buf.push(0x72);
    buf.push(0x6F);
    buf.push(0x6D);
    buf.push(0x69);
    buf.push(0x73);
    buf.push(0x6F);
    buf.push(0x72);
    buf.push(0x79);
    push_u32_le(buf, CAMERA_FLOAT_BITS);
    push_u32_le(buf, CAMERA_FLOAT_BITS);
    push_i16_le(buf, 101);
    push_i16_le(buf, 101);
    push_byte(buf, 0);
    push_u16_le(buf, 9);
    push_byte_run(buf, 0, 9);
    push_byte_run(buf, 0, 36);
    push_u32_le(buf, num);
    push_u32_le(buf, TWO_FLOAT_BITS);
    push_u16_le(buf, 0);
    push_byte_run(buf, 0, 15);
    push_byte_run(buf, 0xFF, 4);
    assert(final(buf)@ =~= old(buf)@ + playable_slot(num - 1));
}

/// Appends the eight playable-player blocks.
fn push_playable_slots(buf: &mut Vec<u8>)
    ensures
        final(buf)@ == old(buf)@ + playable_slots(8),
{
    let mut i: u32 = 0;
    while i < 8
        invariant
            i <= 8,
            buf@ == old(buf)@ + playable_slots(i as nat),
        decreases 8 - i,
    {
        push_playable_slot(buf, i + 1);
        assert(buf@ =~= old(buf)@ + playable_slots((i + 1) as nat));
        i = i + 1;
    }
}

/// Appends the eight unused-player name records.
fn push_unused_names(buf: &mut Vec<u8>)
    ensures
        final(buf)@ == old(buf)@ + unused_names(8),
{
    let mut i: usize = 0;
    while i < 8
        invariant
            i <= 8,
            buf@ == old(buf)@ + unused_names(i as nat),
        decreases 8 - i,
    {
        push_u16_le(buf, 10);
        buf.push(0x52);
        buf.push(0x61);
        buf.push(0x6E);
        buf.push(0x64);
        buf.push(0x6F);
        buf.push(0x6D);
        buf.push(0x47);
        buf.push(0x61);
        buf.push(0x6D);
        buf.push(0x65);
        assert(buf@ =~= old(buf)@ + unused_names((i + 1) as nat));
        i = i + 1;
    }
}

impl ScenHeader {
    /// Builds the uncompressed body, byte for byte as
    /// `scen_body_bytes` lays it out.
    #[verifier::rlimit(100)]
    pub fn body_bytes(&self) -> (r: Vec<u8>)
        requires
            self.wf(),
            names_ok(self.players@),
        ensures
            r@ == scen_body_bytes(*self),
    {
        let mut buf: Vec<u8> = Vec::new();
        push_u32_le(&mut buf, 19246);
        push_u32_le(&mut buf, VERSION_FLOAT_BITS);
        push_name_slots(&mut buf, &self.players);
        push_byte_run(&mut buf, 0, 64);
        push_attr_slots(&mut buf, &self.players);
        push_u32_le(&mut buf, 1);
        push_byte(&mut buf, 0);
        push_u32_le(&mut buf, NEG_ONE_FLOAT_BITS);
        push_u16_le(&mut buf, self.filename.len() as u16);
        push_bytes(&mut buf, &self.filename);
        push_messages(&mut buf, &self.messages);
        push_byte_run(&mut buf, 0, 6);
        push_image(&mut buf, &self.image);
        push_byte_run(&mut buf, 0, 64);
        push_byte_run(&mut buf, 0, 16);
        push_unused_names(&mut buf);
        push_byte_run(&mut buf, 0, 96);
        push_byte_run(&mut buf, 0, 96);
        push_byte_run(&mut buf, 0, 8);
        push_byte_run(&mut buf, 0, 8);
        push_u32_le(&mut buf, HEADER_SEPARATOR);
        push_resource_slots(&mut buf, &self.players);
        push_u32_le(&mut buf, HEADER_SEPARATOR);
        push_byte_run(&mut buf, 0, 40);
        push_byte_run(&mut buf, 0, 1024);
        push_byte_run(&mut buf, 0, 11520);
        push_u32_le(&mut buf, HEADER_SEPARATOR);
        push_byte_run(&mut buf, 0, 64);
        push_byte_run(&mut buf, 0, 32);
        push_byte_run(&mut buf, 0xFF, 32);
        push_byte_run(&mut buf, 0xFF, 1920);
        push_byte_run(&mut buf, 0, 32);
        push_byte_run(&mut buf, 0xFF, 32);
        push_byte_run(&mut buf, 0xFF, 1920);
        push_byte_run(&mut buf, 0, 32);
        push_byte_run(&mut buf, 0xFF, 32);
        push_byte_run(&mut buf, 0xFF, 1280);
        push_byte_run(&mut buf, 0, 12);
        push_byte_run(&mut buf, 0, 32);
        push_u32_le(&mut buf, 0);
        push_byte_run(&mut buf, 0xFF, 28);
        push_u32_le(&mut buf, HEADER_SEPARATOR);
        push_byte_run(&mut buf, 0, 8);
        push_u32_le(&mut buf, 0);
        let mb = self.map.to_bytes();
        push_bytes(&mut buf, &mb);
        push_u32_le(&mut buf, 9);
        push_float_resource_slots(&mut buf, &self.players);
        push_unit_lists(&mut buf, &self.players);
        push_u32_le(&mut buf, 9);
        push_playable_slots(&mut buf);
        push_u32_le(&mut buf, 0x9999_999A);
        push_u32_le(&mut buf, 0x3FF9_9999);
        push_byte(&mut buf, 0);
        push_u32_le(&mut buf, 0);
        push_byte_run(&mut buf, 0, 8);
        buf
    }

    /// Joins the plaintext header and an already-compressed body into
    /// the finished file image.
    pub fn assemble_output(&self, compressed: &Vec<u8>) -> (r: Vec<u8>)
        requires
            self.wf(),
        ensures
            r@ == plain_header_bytes(*self) + compressed@,
    {
        let mut buf: Vec<u8> = Vec::new();
        buf.push(self.version[0]);
        buf.push(self.version[1]);
        buf.push(self.version[2]);
        buf.push(self.version[3]);
        assert(buf@ =~= self.version@);
        push_i32_le(&mut buf, 20 + (self.instructions.len() as i32));
        push_i32_le(&mut buf, self.header_type);
        push_i32_le(&mut buf, self.timestamp);
        push_i32_le(&mut buf, self.instructions.len() as i32);
        push_bytes(&mut buf, &self.instructions);
        push_i32_le(&mut buf, 0);
        push_i32_le(&mut buf, self.players.len() as i32);
        assert(buf@ =~= plain_header_bytes(*self));
        push_bytes(&mut buf, compressed);
        buf
    }

    /// Encodes the whole scenario: checks the player names, builds
    /// the body, compresses it, and prefixes the plaintext header.
    /// Fails with `NameTooLong` exactly when some player's name
    /// exceeds 255 bytes; on every other well-formed header it
    /// returns the finished file, whose bytes are a pure function of
    /// the header's fields.
    pub fn to_bytes(&self) -> (r: Result<Vec<u8>, EncodeError>)
        requires
            self.wf(),
        ensures
            r is Ok <==> names_ok(self.players@),
            !names_ok(self.players@) ==> r == Err::<Vec<u8>, EncodeError>(
                EncodeError::NameTooLong,
            ),
            r matches Ok(bytes) ==> bytes@ == scen_bytes(*self),
    {
        let mut i: usize = 0;
        while i < self.players.len()
            invariant
                i <= self.players@.len(),
                forall|k: int| 0 <= k < i ==> #[trigger] self.players@[k].name@.len() <= 255,
            decreases self.players@.len() - i,
        {
            if self.players[i].name.len() > 255 {
                return Err(EncodeError::NameTooLong);
            }
            i = i + 1;
        }
        let body = self.body_bytes();
        let compressed = deflate_sync(&body).unwrap();
        Ok(self.assemble_output(&compressed))
    }
}

} // verus!
