use svd_stego::lsb::{LSBStego, StegoError};
use svd_stego::quantize::{entries_to_bytes, entry_from_bytes, entry_to_bytes, parse_bits, FactorRole};
use svd_stego::reconstruct::{reconstruct_image, sample_of};

fn bits_of(s: &str) -> String {
    s.to_string()
}

#[test]
fn write_then_read_returns_same_bits() {
    let mut enc = LSBStego::new(vec![0u8; 12], 2, 2);
    let bits = "1011001110110100101";
    assert_eq!(enc.put_binary_value(bits_of(bits)), Ok(()));
    let img = enc.get_image();
    let mut dec = LSBStego::new(img, 2, 2);
    assert_eq!(dec.read_bits(bits.len() as u32), Ok(bits.to_string()));
}

#[test]
fn write_sets_and_clears_low_bits_first() {
    let mut enc = LSBStego::new(vec![0b1010_1010u8; 6], 1, 2);
    assert_eq!(enc.put_binary_value(bits_of("1100001")), Ok(()));
    // first plane of bytes 0..6, then plane 1 of byte 0
    assert_eq!(enc.get_image(), vec![0xAB, 0xAB, 0xAA, 0xAA, 0xAA, 0xAA]);
    assert_eq!(enc.position(), (1, 1, 1));
}

#[test]
fn cursor_walks_channels_then_pixels_then_planes() {
    let mut a = LSBStego::new(vec![0u8; 6], 2, 1);
    let mut b = LSBStego::new(vec![9u8; 6], 2, 1);
    assert_eq!(a.position(), (0, 0, 0));
    let mut seen = Vec::new();
    for _ in 0..7 {
        assert_eq!(a.next_slot(), Ok(()));
        assert_eq!(b.next_slot(), Ok(()));
        assert_eq!(a.position(), b.position());
        seen.push(a.position());
    }
    assert_eq!(
        seen,
        vec![(1, 1, 0), (2, 2, 0), (0, 3, 0), (1, 4, 0), (2, 5, 0), (0, 0, 1), (1, 1, 1)]
    );
}

#[test]
fn masks_follow_the_plane() {
    let mut a = LSBStego::new(vec![0u8; 3], 1, 1);
    assert_eq!(a.get_mask_one(), 1);
    assert_eq!(a.get_mask_zero(), 254);
    for _ in 0..3 {
        a.next_slot().unwrap();
    }
    assert_eq!(a.get_mask_one(), 2);
    assert_eq!(a.get_mask_zero(), 253);
}

#[test]
fn capacity_boundary_exact_fit_then_one_more_fails() {
    // 10 bytes: 9 usable, 8 planes
    let mut a = LSBStego::new(vec![0u8; 10], 3, 1);
    let cap = 9 * 8;
    assert_eq!(a.put_binary_value("1".repeat(cap)), Ok(()));
    assert_eq!(a.put_binary_value("1".to_string()), Err(StegoError::CapacityExhausted));
    assert_eq!(a.next_slot(), Err(StegoError::CapacityExhausted));
    assert_eq!(a.get_image(), vec![255, 255, 255, 255, 255, 255, 255, 255, 255, 0]);
}

#[test]
fn capacity_boundary_with_plane_budget() {
    // 30 bytes, 2 planes: 60 slots; header takes 48
    let mut a = LSBStego::new(vec![0u8; 30], 10, 1);
    assert_eq!(a.init_encode(1, 2, 3, 2), Ok(()));
    assert_eq!(a.put_binary_value("0".repeat(12)), Ok(()));
    assert_eq!(a.put_binary_value("0".to_string()), Err(StegoError::CapacityExhausted));
    let mut b = LSBStego::new(vec![0u8; 30], 10, 1);
    assert_eq!(b.put_binary_value("0".repeat(12)), Ok(()));
    assert_eq!(b.init_encode(1, 2, 3, 2), Ok(()));
    assert_eq!(b.put_binary_value("1".to_string()), Err(StegoError::CapacityExhausted));
    let mut c = LSBStego::new(vec![0u8; 30], 10, 1);
    assert_eq!(c.put_binary_value("0".repeat(13)), Ok(()));
    assert_eq!(c.init_encode(1, 2, 3, 2), Err(StegoError::CapacityExhausted));
    assert_eq!(c.position(), (1, 13, 0));
    assert_eq!(c.put_binary_value("0".repeat(60 * 4 - 13)), Ok(()));
}

#[test]
fn overflowing_write_changes_nothing() {
    let mut a = LSBStego::new(vec![7u8; 3], 1, 1);
    assert_eq!(a.put_binary_value("0".repeat(25)), Err(StegoError::CapacityExhausted));
    assert_eq!(a.get_image(), vec![7, 7, 7]);
    assert_eq!(a.position(), (0, 0, 0));
    assert_eq!(a.read_bits(25), Err(StegoError::CapacityExhausted));
}

#[test]
fn empty_buffer_has_no_slot() {
    let mut a = LSBStego::new(vec![1u8, 2], 0, 0);
    assert_eq!(a.put_binary_value(String::new()), Ok(()));
    assert_eq!(a.put_binary_value("1".to_string()), Err(StegoError::CapacityExhausted));
    assert_eq!(a.next_slot(), Err(StegoError::CapacityExhausted));
}

#[test]
fn binary_value_pads_to_width() {
    let a = LSBStego::new(vec![0u8; 3], 1, 1);
    assert_eq!(a.binary_value(5, 8), Ok("00000101".to_string()));
    assert_eq!(a.binary_value(0, 4), Ok("0000".to_string()));
    assert_eq!(a.binary_value(65535, 16), Ok("1111111111111111".to_string()));
    assert_eq!(a.byte_value(200), Ok("11001000".to_string()));
}

#[test]
fn binary_value_too_wide_is_domain_error() {
    let a = LSBStego::new(vec![0u8; 3], 1, 1);
    assert_eq!(a.binary_value(256, 8), Err(StegoError::DomainError));
    assert_eq!(a.binary_value(65536, 16), Err(StegoError::DomainError));
    assert_eq!(a.byte_value(256), Err(StegoError::DomainError));
}

#[test]
fn parse_bits_reads_binary() {
    assert_eq!(parse_bits("00000101"), 5);
    assert_eq!(parse_bits("1111111111111111"), 65535);
    assert_eq!(parse_bits(""), 0);
    assert_eq!(parse_bits("11111111111111111111111111111111"), u32::MAX);
    assert_eq!(parse_bits("10000000000000000000000000000001"), 0x8000_0001);
}

#[test]
fn init_encode_rejects_bad_fields() {
    let mut a = LSBStego::new(vec![0u8; 300], 10, 10);
    assert_eq!(a.init_encode(65536, 1, 1, 1), Err(StegoError::DomainError));
    assert_eq!(a.init_encode(1, 1, 1, 0), Err(StegoError::DomainError));
    assert_eq!(a.init_encode(1, 1, 1, 9), Err(StegoError::DomainError));
    assert_eq!(a.get_image(), vec![0u8; 300]);
    let mut small = LSBStego::new(vec![0u8; 15], 5, 1);
    assert_eq!(small.init_encode(1, 1, 1, 3), Err(StegoError::CapacityExhausted));
}

#[test]
fn header_round_trip() {
    let mut a = LSBStego::new(vec![0u8; 300], 10, 10);
    assert_eq!(a.init_encode(640, 480, 37, 1), Ok(()));
    let mut b = LSBStego::new(a.get_image(), 10, 10);
    let p = b.decode_properties().unwrap();
    assert_eq!((p.0, p.1, p.2), (640, 480, 37));
}

#[test]
fn decode_properties_needs_48_slots() {
    let mut a = LSBStego::new(vec![0u8; 5], 1, 1);
    assert!(matches!(a.decode_properties(), Err(StegoError::CapacityExhausted)));
}

#[test]
fn entry_bytes_are_little_endian_twos_complement() {
    assert_eq!(entry_to_bytes(-2), (0xFE, 0xFF));
    assert_eq!(entry_to_bytes(10000), (0x10, 0x27));
    assert_eq!(entry_to_bytes(i16::MIN), (0x00, 0x80));
    assert_eq!(entry_from_bytes(0xFE, 0xFF), -2);
    assert_eq!(entry_from_bytes(0x10, 0x27), 10000);
    assert_eq!(entry_from_bytes(0xFF, 0x7F), i16::MAX);
    assert_eq!(entries_to_bytes(&vec![1, -1, 256]), vec![1, 0, 255, 255, 0, 1]);
}

#[test]
fn quantization_round_trip_within_role_tolerance() {
    for &(v, role) in &[(123.4f32, FactorRole::Left), (-0.73219f32, FactorRole::Right), (2.5f32, FactorRole::Right)] {
        let scale = role.scale() as f32;
        let q = (v * scale).round() as i16;
        let (lo, hi) = entry_to_bytes(q);
        let back = entry_from_bytes(lo, hi) as f32 / scale;
        assert!((back - v).abs() <= 1.0 / scale);
    }
    for v in [i16::MIN, -1, 0, 1, 12345, i16::MAX] {
        let (lo, hi) = entry_to_bytes(v);
        assert_eq!(entry_from_bytes(lo, hi), v);
    }
}

#[test]
fn sample_rounds_half_away_and_clamps() {
    assert_eq!(sample_of(15000), 2);
    assert_eq!(sample_of(14999), 1);
    assert_eq!(sample_of(5000), 1);
    assert_eq!(sample_of(4999), 0);
    assert_eq!(sample_of(-7), 0);
    assert_eq!(sample_of(-90000), 0);
    assert_eq!(sample_of(2_555_000), 255);
    assert_eq!(sample_of(3_000_000), 255);
}

#[test]
fn reconstruct_multiplies_factors() {
    // width 2, height 1, rank 1: left [[3]], right [[10000, 20000]] -> 3, 6
    let red = entries_to_bytes(&vec![3, 10000, 20000]);
    let green = entries_to_bytes(&vec![-3, 10000, 20000]);
    let blue = entries_to_bytes(&vec![200, 10000, 15000]);
    let out = reconstruct_image(&red, &green, &blue, 2, 1, 1);
    assert_eq!(out, vec![3, 0, 200, 255, 6, 0, 255, 255]);
}

#[test]
fn decode_approximation_rejects_bad_sizes() {
    let mut a = LSBStego::new(vec![0u8; 30], 10, 1);
    assert_eq!(a.decode_approximation(2, 2, 3), Err(StegoError::MalformedStream));
    assert_eq!(a.decode_approximation(70000, 2, 1), Err(StegoError::MalformedStream));
    assert_eq!(a.decode_approximation(4, 4, 2), Err(StegoError::CapacityExhausted));
    assert_eq!(a.position(), (0, 0, 0));
}

#[test]
fn channel_bytes_read_back_in_order() {
    let mut enc = LSBStego::new(vec![0x55u8; 90], 30, 1);
    assert_eq!(enc.init_encode(2, 1, 1, 1), Ok(()));
    let lhs = vec![0u8, 255, 17];
    let rhs = vec![128u8, 1];
    assert_eq!(enc.encode_channel(&lhs, &rhs), Ok(()));
    assert_eq!(enc.encode_channel(&lhs, &rhs), Err(StegoError::CapacityExhausted));
    let mut dec = LSBStego::new(enc.get_image(), 30, 1);
    let p = dec.decode_properties().unwrap();
    assert_eq!((p.0, p.1, p.2), (2, 1, 1));
    assert_eq!(dec.read_bytes(5), Ok(vec![0, 255, 17, 128, 1]));
}

#[test]
fn last_advance_fails_and_exhausts() {
    let mut a = LSBStego::new(vec![0u8; 3], 1, 1);
    assert_eq!(a.init_encode(0, 0, 0, 1), Err(StegoError::CapacityExhausted));
    for _ in 0..23 {
        assert_eq!(a.next_slot(), Ok(()));
    }
    assert_eq!(a.position(), (2, 2, 7));
    assert_eq!(a.next_slot(), Err(StegoError::CapacityExhausted));
    assert_eq!(a.position(), (0, 0, 8));
    assert_eq!(a.next_slot(), Err(StegoError::CapacityExhausted));
    assert_eq!(a.position(), (0, 0, 8));
}

#[test]
fn header_is_written_at_the_current_slot() {
    let mut enc = LSBStego::new(vec![0u8; 60], 20, 1);
    assert_eq!(enc.put_binary_value("10110".to_string()), Ok(()));
    assert_eq!(enc.init_encode(4, 4, 2, 1), Ok(()));
    assert_eq!(enc.position(), (2, 53, 0));
    let mut dec = LSBStego::new(enc.get_image(), 20, 1);
    assert_eq!(dec.read_bits(5), Ok("10110".to_string()));
    let p = dec.decode_properties().unwrap();
    assert_eq!((p.0, p.1, p.2), (4, 4, 2));
}

#[test]
fn new_codec_starts_at_first_slot() {
    let a = LSBStego::new(vec![0u8; 9], 3, 1);
    assert_eq!(a.position(), (0, 0, 0));
    assert_eq!(a.get_mask_one(), 1);
    assert_eq!(a.get_mask_zero(), 254);
    let mut e = LSBStego::new(Vec::new(), 0, 0);
    assert_eq!(e.position(), (0, 0, 0));
    assert_eq!(e.get_mask_one(), 1);
    assert_eq!(e.get_mask_zero(), 254);
    assert_eq!(e.next_slot(), Err(StegoError::CapacityExhausted));
    assert_eq!(e.position(), (0, 0, 0));
    assert_eq!(e.read_bits(1), Err(StegoError::CapacityExhausted));
    assert_eq!(e.init_encode(1, 1, 1, 1), Err(StegoError::CapacityExhausted));
}
