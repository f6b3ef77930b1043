use scx::map::TileMap;
use scx::player::{BaseResources, Player};
use scx::scenario::{EncodeError, ScenHeader, ScenImage, ScenMessages};
use scx::unit::Unit;
use scx::world::World;

fn empty_messages() -> ScenMessages {
    ScenMessages {
        objectives: Vec::new(),
        hints: Vec::new(),
        scouts: Vec::new(),
        history: Vec::new(),
        victory: Vec::new(),
        loss: Vec::new(),
    }
}

fn empty_image() -> ScenImage {
    ScenImage {
        filename: Vec::new(),
        included: false,
        width: 0,
        height: 0,
        include_mode: 1,
    }
}

fn two_player_header() -> ScenHeader {
    let alice = Player {
        name: b"Alice".to_vec(),
        active: 1,
        human: 2,
        civilization: 1,
        resources: BaseResources {
            gold: 100,
            wood: 200,
            food: 200,
            stone: 400,
            ore: 0,
        },
        units: vec![Unit::new(448, (4.0f32).to_bits(), (4.0f32).to_bits())],
    };
    let bob = Player {
        name: b"Bob".to_vec(),
        active: 1,
        human: 0,
        civilization: 2,
        resources: BaseResources::default(),
        units: Vec::new(),
    };
    ScenHeader {
        version: *b"1.21",
        header_type: 2,
        timestamp: 1451422223,
        instructions: b"Build a base".to_vec(),
        players: vec![alice, bob],
        filename: b"test.scx".to_vec(),
        messages: empty_messages(),
        image: empty_image(),
        map: TileMap::new(8),
    }
}

fn decompress(compressed: &[u8], expected_len: usize) -> Vec<u8> {
    let mut d = flate2::Decompress::new(false);
    let mut out: Vec<u8> = Vec::with_capacity(expected_len + 4096);
    let status = d
        .decompress_vec(compressed, &mut out, flate2::FlushDecompress::Sync)
        .unwrap();
    assert!(!matches!(status, flate2::Status::BufError));
    out
}

fn le32(bytes: &[u8], off: usize) -> u32 {
    u32::from_le_bytes([bytes[off], bytes[off + 1], bytes[off + 2], bytes[off + 3]])
}

#[test]
fn end_to_end_two_player_scenario() {
    let h = two_player_header();
    let out = h.to_bytes().unwrap();

    // plaintext header
    assert_eq!(&out[0..4], b"1.21");
    let instructions_len = 12u32;
    assert_eq!(le32(&out, 4), 20 + instructions_len); // header length
    assert_eq!(le32(&out, 8), 2); // header type
    assert_eq!(le32(&out, 12), 1451422223); // timestamp
    assert_eq!(le32(&out, 16), instructions_len);
    assert_eq!(&out[20..32], b"Build a base");
    assert_eq!(le32(&out, 32), 0);
    assert_eq!(le32(&out, 36), 2); // player count

    // compressed body
    let body = decompress(&out[40..], 40000);
    assert_eq!(le32(&body, 0), 19246);
    assert_eq!(&body[4..8], &(1.22f32).to_le_bytes());

    // name slots
    assert_eq!(&body[8..13], b"Alice");
    assert_eq!(body[13], 0);
    assert_eq!(&body[8 + 256..8 + 259], b"Bob");

    // attribute blocks at 8 + 4096 + 64
    let attrs = 8 + 4096 + 64;
    assert_eq!(le32(&body, attrs), 1); // Alice active
    assert_eq!(le32(&body, attrs + 4), 2); // Alice human flag
    assert_eq!(le32(&body, attrs + 8), 1); // Alice civilization
    assert_eq!(le32(&body, attrs + 12), 4);
    assert_eq!(le32(&body, attrs + 16), 1); // Bob active
    assert_eq!(le32(&body, attrs + 20), 0);
    assert_eq!(le32(&body, attrs + 24), 2);
    // unused slot
    assert_eq!(le32(&body, attrs + 2 * 16), 0);
    assert_eq!(le32(&body, attrs + 2 * 16 + 12), 4);

    // resources block: food, wood, gold, stone, ore, reserved
    let filename_len = 8;
    let messages_len = 24 + 6 * 3;
    let image_len = 16;
    let resources = attrs + 256 + 9 + 2 + filename_len + messages_len + 6 + image_len + 64 + 16
        + 96 + 96 + 96 + 8 + 8 + 4;
    assert_eq!(le32(&body, resources - 4), 0xFFFFFF9D); // separator fingerprint
    assert_eq!(le32(&body, resources), 200); // Alice food
    assert_eq!(le32(&body, resources + 4), 200); // Alice wood
    assert_eq!(le32(&body, resources + 8), 100); // Alice gold
    assert_eq!(le32(&body, resources + 12), 400); // Alice stone
    assert_eq!(le32(&body, resources + 16), 0); // Alice ore
    assert_eq!(le32(&body, resources + 24), 200); // Bob food
    assert_eq!(le32(&body, resources + 32), 100); // Bob gold

    // tile section: two little-endian 32-bit sizes, both 8
    let map_off = resources + 384 + 4 + 40 + 1024 + 11520 + 4 + 64 + 1984 + 1984 + 1344 + 12
        + 32 + 4 + 28 + 4 + 8 + 4;
    assert_eq!(le32(&body, map_off), 8);
    assert_eq!(le32(&body, map_off + 4), 8);
    // all tiles (terrain 0, elevation 0, reserved 0)
    for k in 0..(8 * 8 * 3) {
        assert_eq!(body[map_off + 8 + k], 0);
    }

    // float resources for Alice start after the map and a section count
    let float_res = map_off + 8 + 8 * 8 * 3 + 4;
    assert_eq!(&body[float_res..float_res + 4], &(200.0f32).to_le_bytes());
    assert_eq!(
        &body[float_res + 12..float_res + 16],
        &(400.0f32).to_le_bytes()
    );

    // unit lists: slot zero empty, then Alice's single unit
    let unit_lists = float_res + 8 * 28;
    assert_eq!(le32(&body, unit_lists), 0);
    assert_eq!(le32(&body, unit_lists + 4), 1);
    assert_eq!(
        &body[unit_lists + 8..unit_lists + 12],
        &(4.0f32).to_le_bytes()
    );
    // Bob's list is empty
    assert_eq!(le32(&body, unit_lists + 8 + 29), 0);

    // the nine unit-list sections take 9 counts plus Alice's record
    let playable = unit_lists + 9 * 4 + 29 + 4;
    // first playable-player block: length-prefixed placeholder name,
    // then the player color at its fixed offset inside the block
    assert_eq!(&body[playable..playable + 2], &[9, 0]);
    assert_eq!(&body[playable + 2..playable + 11], b"Promisory");
    assert_eq!(le32(&body, playable + 71), 1); // player color
    assert_eq!(le32(&body, playable + 100 + 71), 2);

    // trailing markers and the zero trigger count
    let trailer = playable + 8 * 100;
    assert_eq!(le32(&body, trailer), 0x9999999A);
    assert_eq!(le32(&body, trailer + 4), 0x3FF99999);
    assert_eq!(body[trailer + 8], 0);
    assert_eq!(le32(&body, trailer + 9), 0); // trigger count
    assert_eq!(body.len(), trailer + 9 + 4 + 8);
}

#[test]
fn encoding_is_deterministic() {
    let h = two_player_header();
    let first = h.to_bytes().unwrap();
    let second = h.to_bytes().unwrap();
    assert_eq!(first, second);
}

#[test]
fn oversized_player_name_is_rejected() {
    let mut h = two_player_header();
    h.players[0].name = vec![0x41; 256];
    assert_eq!(h.to_bytes(), Err(EncodeError::NameTooLong));
    h.players[0].name = vec![0x41; 255];
    assert!(h.to_bytes().is_ok());
}

#[test]
fn body_compression_round_trips() {
    let h = two_player_header();
    let body = h.body_bytes();
    let out = h.to_bytes().unwrap();
    let compressed = &out[40..];
    // deflate really transformed the body: the mostly-zero body
    // shrinks, and inflating restores it byte for byte
    assert!(compressed.len() < body.len());
    let restored = decompress(compressed, body.len());
    assert_eq!(restored, body);
}

#[test]
fn world_generates_a_smooth_patterned_map() {
    let w = World::new();
    assert_eq!(w.map_size, 120);
    let m = w.generate_map();
    assert_eq!(m.size, 120);
    // terrain bands: a snow row at y == 20, a dirt column at x == 20,
    // snow winning where they cross
    assert_eq!(m.tile_at(7, 20).unwrap().terrain, 32);
    assert_eq!(m.tile_at(20, 7).unwrap().terrain, 3);
    assert_eq!(m.tile_at(20, 20).unwrap().terrain, 32);
    assert_eq!(m.tile_at(50, 50).unwrap().terrain, 0);
    // the flattened region sits at 4, the elevated spot at 2
    assert_eq!(m.elevation_at(25, 25), Some(4));
    assert_eq!(m.elevation_at(30, 30), Some(2));
    assert_eq!(m.elevation_at(31, 31), Some(3));
    assert_eq!(m.elevation_at(100, 100), Some(0));
    // the slope invariant holds everywhere
    for x in 0..120 {
        for y in 0..120 {
            let e = m.elevation_at(x, y).unwrap() as i32;
            for c in m.tile_neighbours(x, y) {
                let ne = m.elevation_at(c.0, c.1).unwrap() as i32;
                assert!((e - ne).abs() <= 1);
            }
        }
    }
}
