use lightmapper::stilb::bmp::{decode_bmp, encode_bmp};

#[test]
fn bmp_header_and_row_order() {
    // 2 x 2 image, RGBA rows from the top
    let rgba: Vec<u8> = vec![
        1, 2, 3, 4, 5, 6, 7, 8, //
        9, 10, 11, 12, 13, 14, 15, 16,
    ];
    let file = encode_bmp(2, 2, &rgba);
    assert_eq!(file.len(), 54 + 16);
    assert_eq!(&file[0..2], b"BM");
    assert_eq!(u32::from_le_bytes(file[2..6].try_into().unwrap()), 70);
    assert_eq!(u32::from_le_bytes(file[10..14].try_into().unwrap()), 54);
    assert_eq!(u32::from_le_bytes(file[14..18].try_into().unwrap()), 40);
    assert_eq!(i32::from_le_bytes(file[18..22].try_into().unwrap()), 2);
    assert_eq!(i32::from_le_bytes(file[22..26].try_into().unwrap()), 2);
    assert_eq!(u16::from_le_bytes(file[26..28].try_into().unwrap()), 1);
    assert_eq!(u16::from_le_bytes(file[28..30].try_into().unwrap()), 32);
    assert!(file[30..54].iter().all(|&b| b == 0));
    // bottom row first, each pixel as BGRA
    assert_eq!(&file[54..70], &[11, 10, 9, 12, 15, 14, 13, 16, 3, 2, 1, 4, 7, 6, 5, 8]);
}

#[test]
fn bmp_round_trip() {
    let (w, h) = (3u32, 2u32);
    let rgba: Vec<u8> = (0..(w * h * 4)).map(|i| (i * 7 % 251) as u8).collect();
    let file = encode_bmp(w, h, &rgba);
    let (w2, h2, back) = decode_bmp(&file);
    assert_eq!((w2, h2), (w, h));
    assert_eq!(back, rgba);
}

#[test]
fn bmp_decode_honours_the_data_offset() {
    let mut file = encode_bmp(1, 1, &[10, 20, 30, 40]);
    // move the pixel data 2 bytes further
    file[10] = 56;
    file.insert(54, 0);
    file.insert(54, 0);
    let (w, h, px) = decode_bmp(&file);
    assert_eq!((w, h), (1, 1));
    assert_eq!(px, vec![10, 20, 30, 40]);
}

#[test]
fn bmp_empty_image() {
    let file = encode_bmp(0, 5, &[]);
    assert_eq!(file.len(), 54);
    let (w, h, px) = decode_bmp(&file);
    assert_eq!((w, h), (0, 5));
    assert!(px.is_empty());
}
