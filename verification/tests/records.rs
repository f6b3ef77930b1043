use scx::fbits::u32_to_f32_bits;
use scx::player::{BaseResources, Player};
use scx::scenario::{
    CAMERA_FLOAT_BITS, NEG_ONE_FLOAT_BITS, TWO_FLOAT_BITS, VERSION_FLOAT_BITS,
};
use scx::unit::{Unit, PLACEHOLDER_FLOAT_BITS};

#[test]
fn unit_record_is_29_bytes_for_any_values() {
    let units = vec![
        Unit::new(448, (110.0f32).to_bits(), (110.5f32).to_bits()),
        Unit::new(0, 0, 0),
        Unit {
            id: u32::MAX,
            unit_type: u16::MAX,
            x_bits: u32::MAX,
            y_bits: 1,
            angle_bits: (3.14159f32).to_bits(),
            frame: 9,
            garrison_id: 77,
        },
    ];
    for u in units {
        assert_eq!(u.to_bytes().len(), 29);
    }
}

#[test]
fn unit_record_layout_is_exact() {
    let u = Unit {
        id: 0x01020304,
        unit_type: 0x0506,
        x_bits: (110.0f32).to_bits(),
        y_bits: (111.0f32).to_bits(),
        angle_bits: (1.5f32).to_bits(),
        frame: 0x0708,
        garrison_id: 0x090A0B0C,
    };
    let b = u.to_bytes();
    assert_eq!(&b[0..4], &(110.0f32).to_le_bytes());
    assert_eq!(&b[4..8], &(111.0f32).to_le_bytes());
    assert_eq!(&b[8..12], &(2.0f32).to_le_bytes());
    assert_eq!(&b[12..16], &[0x04, 0x03, 0x02, 0x01]);
    assert_eq!(&b[16..18], &[0x06, 0x05]);
    assert_eq!(b[18], 2);
    assert_eq!(&b[19..23], &(1.5f32).to_le_bytes());
    assert_eq!(&b[23..25], &[0x08, 0x07]);
    assert_eq!(&b[25..29], &[0x0C, 0x0B, 0x0A, 0x09]);
}

#[test]
fn unit_new_fills_defaults() {
    let u = Unit::new(83, (4.0f32).to_bits(), (4.0f32).to_bits());
    assert_eq!(u.id, 1);
    assert_eq!(u.unit_type, 83);
    assert_eq!(u.angle_bits, 0);
    assert_eq!(u.frame, 0);
    assert_eq!(u.garrison_id, 0);
}

#[test]
fn default_resources_match_the_standard_stock() {
    let r = BaseResources::default();
    assert_eq!(r.gold, 100);
    assert_eq!(r.wood, 200);
    assert_eq!(r.food, 200);
    assert_eq!(r.stone, 200);
    assert_eq!(r.ore, 0);
}

#[test]
fn empty_player_is_inactive_and_bare() {
    let p = Player::empty();
    assert!(p.name.is_empty());
    assert_eq!(p.active, 0);
    assert_eq!(p.human, 0);
    assert_eq!(p.resources.food, 0);
    assert!(p.units.is_empty());
}

#[test]
fn with_units_replaces_only_the_unit_list() {
    let p = Player {
        name: b"Alice".to_vec(),
        active: 1,
        human: 2,
        civilization: 1,
        resources: BaseResources::default(),
        units: Vec::new(),
    };
    let p2 = p.with_units(vec![Unit::new(4, 0, 0), Unit::new(5, 0, 0)]);
    assert_eq!(p2.name, b"Alice".to_vec());
    assert_eq!(p2.active, 1);
    assert_eq!(p2.units.len(), 2);
    assert_eq!(p2.units[1].unit_type, 5);
}

#[test]
fn float_marker_constants_are_the_real_bit_patterns() {
    assert_eq!(VERSION_FLOAT_BITS, (1.22f32).to_bits());
    assert_eq!(NEG_ONE_FLOAT_BITS, (-1.0f32).to_bits());
    assert_eq!(CAMERA_FLOAT_BITS, (101.0f32).to_bits());
    assert_eq!(TWO_FLOAT_BITS, (2.0f32).to_bits());
    assert_eq!(PLACEHOLDER_FLOAT_BITS, (2.0f32).to_bits());
}

#[test]
fn integer_to_float_bits_matches_the_hardware_cast() {
    let samples: [u32; 18] = [
        0,
        1,
        2,
        3,
        100,
        200,
        255,
        256,
        300,
        400,
        65535,
        0xFF_FFFF,
        0x100_0000,
        0x100_0001,
        0x100_0002,
        0xFFFF_FF7F,
        0xFFFF_FF80,
        0xFFFF_FFFF,
    ];
    for v in samples {
        assert_eq!(u32_to_f32_bits(v), (v as f32).to_bits(), "value {}", v);
    }
    let mut v: u32 = 1;
    for _ in 0..20000 {
        assert_eq!(u32_to_f32_bits(v), (v as f32).to_bits(), "value {}", v);
        v = v.wrapping_mul(1664525).wrapping_add(1013904223);
    }
}
