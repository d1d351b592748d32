use lightmapper::baker::texture2d::{
    device_size, encode_r11g11b10, f32_to_ufloat, pixel_size, round_shift, row_chunks, TextureFormat,
};

#[test]
fn round_shift_rounds_to_nearest() {
    assert_eq!(round_shift(0b1011, 2), 3);
    assert_eq!(round_shift(9, 2), 2);
    assert_eq!(round_shift(5, 0), 5);
}

#[test]
fn round_shift_ties_go_to_even() {
    assert_eq!(round_shift(10, 2), 2);
    assert_eq!(round_shift(14, 2), 4);
    assert_eq!(round_shift(u64::MAX, 1), 1u64 << 63);
}

#[test]
fn round_shift_by_a_whole_word_and_more() {
    assert_eq!(round_shift(u64::MAX, 64), 1);
    assert_eq!(round_shift((1u64 << 63) + 1, 64), 1);
    assert_eq!(round_shift(1u64 << 63, 64), 0);
    assert_eq!(round_shift(123, 64), 0);
    assert_eq!(round_shift(u64::MAX, 65), 0);
    assert_eq!(round_shift(123, 200), 0);
}

fn uf(v: f32, mb: u32) -> u32 {
    f32_to_ufloat(v.to_bits(), mb)
}

#[test]
fn ufloat_of_normal_values() {
    assert_eq!(uf(1.0, 6), 15 << 6);
    assert_eq!(uf(1.5, 6), (15 << 6) | 32);
    assert_eq!(uf(2.0, 6), 16 << 6);
    assert_eq!(uf(0.5, 6), 14 << 6);
    assert_eq!(uf(1.0, 5), 15 << 5);
    assert_eq!(uf(65024.0, 6), (30 << 6) | 63);
}

#[test]
fn ufloat_of_special_values() {
    assert_eq!(uf(f32::NAN, 6), (31 << 6) | 1);
    assert_eq!(uf(f32::INFINITY, 6), 31 << 6);
    assert_eq!(uf(f32::NEG_INFINITY, 6), 0);
    assert_eq!(uf(-1.0, 6), 0);
    assert_eq!(uf(0.0, 6), 0);
    assert_eq!(uf(-0.0, 6), 0);
    assert_eq!(uf(1e10, 6), 31 << 6);
    // rounding past the largest finite value gives infinity
    assert_eq!(uf(65504.0, 6), 31 << 6);
}

#[test]
fn ufloat_of_small_values() {
    // smallest normal
    assert_eq!(uf(f32::from_bits(113 << 23), 6), 1 << 6);
    // smallest subnormal, 2^-20
    assert_eq!(uf(f32::from_bits(107 << 23), 6), 1);
    // just below the smallest normal rounds up to it
    assert_eq!(uf(f32::from_bits((112 << 23) | 0x7FC000), 6), 1 << 6);
    // far below the subnormals
    assert_eq!(uf(1e-30, 6), 0);
    assert_eq!(uf(f32::from_bits(1), 6), 0);
}

#[test]
fn r11g11b10_packs_little_endian() {
    let bytes = encode_r11g11b10(1.0f32.to_bits(), 1.0f32.to_bits(), 1.0f32.to_bits());
    assert_eq!(bytes, [0xC0, 0x03, 0x1E, 0x78]);
    let packed = u32::from_le_bytes(bytes);
    assert_eq!(packed & 0x7FF, 960);
    assert_eq!((packed >> 11) & 0x7FF, 960);
    assert_eq!(packed >> 22, 480);
    let black = encode_r11g11b10(0.0f32.to_bits(), (-3.0f32).to_bits(), 0.0f32.to_bits());
    assert_eq!(black, [0, 0, 0, 0]);
}

#[test]
fn r11g11b10_channels_are_independent() {
    let bytes = encode_r11g11b10(2.0f32.to_bits(), 0.0f32.to_bits(), f32::INFINITY.to_bits());
    let packed = u32::from_le_bytes(bytes);
    assert_eq!(packed & 0x7FF, 16 << 6);
    assert_eq!((packed >> 11) & 0x7FF, 0);
    assert_eq!(packed >> 22, 31 << 5);
}

#[test]
fn staging_chunks_cover_the_image() {
    assert_eq!(row_chunks(10, 4), vec![(0, 4), (4, 4), (8, 2)]);
    assert_eq!(row_chunks(8, 4), vec![(0, 4), (4, 4)]);
    assert_eq!(row_chunks(0, 3), vec![]);
    assert_eq!(row_chunks(5, 10), vec![(0, 5)]);
}

#[test]
fn texel_sizes() {
    assert_eq!(pixel_size(TextureFormat::Rgba32Float), 16);
    assert_eq!(pixel_size(TextureFormat::Rgba8Unorm), 4);
    assert_eq!(pixel_size(TextureFormat::B10G11R11Ufloat), 4);
    assert_eq!(device_size(4, 2, TextureFormat::Rgba32Float), 128);
    assert_eq!(device_size(1024, 1024, TextureFormat::Rgba8Unorm), 4 << 20);
}

#[test]
fn ufloat_keeps_the_order_of_values() {
    let mut previous = (0u32, 0u32);
    let mut v = 0.0f32;
    while v < 70000.0 {
        let codes = (uf(v, 6), uf(v, 5));
        assert!(codes.0 >= previous.0 && codes.1 >= previous.1, "order broken at {v}");
        previous = codes;
        v = if v == 0.0 { 1e-9 } else { v * 1.01 };
    }
    assert_eq!(uf(-0.0, 6), 0);
    assert_eq!(uf(f32::MAX, 6), 31 << 6);
}
