use berryfast::region::{local_coords, pixel_offset, region_coords, Pixel};

#[test]
fn encode_writes_color_then_owner_little_endian() {
    let p = Pixel { r: 0xFF, g: 0x00, b: 0x10, owner_id: 0x030201 };
    let mut buf = [0u8; 6];
    p.encode(&mut buf);
    assert_eq!(buf, [0xFF, 0x00, 0x10, 0x01, 0x02, 0x03]);
}

#[test]
fn decode_reads_back_what_encode_wrote() {
    let p = Pixel { r: 1, g: 2, b: 3, owner_id: 0xFF_FFFF };
    let mut buf = [0u8; 6];
    p.encode(&mut buf);
    assert_eq!(Pixel::decode(&buf), p);
}

#[test]
fn negative_coordinates_use_floor_division() {
    assert_eq!(region_coords(-1, -129), (-1, -2));
    assert_eq!(local_coords(-1, -129), (127, 127));
    assert_eq!(region_coords(128, 0), (1, 0));
    assert_eq!(local_coords(128, 0), (0, 0));
}

#[test]
fn offsets_are_row_major() {
    assert_eq!(pixel_offset(0, 0), 0);
    assert_eq!(pixel_offset(1, 0), 6);
    assert_eq!(pixel_offset(0, 1), 768);
    assert_eq!(pixel_offset(127, 127), 98_298);
}

#[test]
fn owner_bits_above_the_24th_are_not_stored() {
    let p = Pixel { r: 9, g: 8, b: 7, owner_id: 0x0100_0002 };
    let mut buf = [0xEEu8; 8];
    p.encode(&mut buf);
    assert_eq!(buf, [9, 8, 7, 2, 0, 0, 0xEE, 0xEE]);
    assert_eq!(Pixel::decode(&buf).owner_id, 2);
}

#[test]
fn round_trip_holds_at_the_ends_of_the_ranges() {
    for owner_id in [0u32, 1, 255, 256, 65_535, 65_536, 0xFF_FFFF] {
        for c in [0u8, 1, 127, 128, 255] {
            let p = Pixel { r: c, g: 255 - c, b: c / 2, owner_id };
            let mut buf = [0u8; 6];
            p.encode(&mut buf);
            assert_eq!(Pixel::decode(&buf), p);
        }
    }
}

#[test]
fn world_coordinate_is_region_times_side_plus_local() {
    for x in [i32::MIN, -129, -128, -127, -1, 0, 1, 127, 128, 129, i32::MAX] {
        let (rx, _) = region_coords(x, 0);
        let (lx, _) = local_coords(x, 0);
        assert!(lx < 128);
        assert_eq!(rx as i64 * 128 + lx as i64, x as i64);
    }
    assert_eq!(region_coords(i32::MIN, i32::MAX), (-16_777_216, 16_777_215));
}

#[test]
fn undrawn_pixel_is_empty() {
    assert!(Pixel::default().is_empty());
    assert!(Pixel { r: 1, g: 2, b: 3, owner_id: 0 }.is_empty());
    assert!(!Pixel { r: 0, g: 0, b: 0, owner_id: 1 }.is_empty());
    assert_eq!(Pixel::default(), Pixel { r: 0, g: 0, b: 0, owner_id: 0 });
}
