use mandelbrot::bitmap::{BitMap, BitMapError, Pixel, offset_to, u16_to_u8, u32_to_u8};

#[test]
fn pixel_new_and_set_rgb() {
    let mut p = Pixel::new(1, 2, 3);
    assert_eq!(p, Pixel { red: 1, green: 2, blue: 3 });
    p.set_rgb(40, 50, 60);
    assert_eq!(p, Pixel { red: 40, green: 50, blue: 60 });
}

#[test]
fn named_colors() {
    assert_eq!(Pixel::black(), Pixel::new(0, 0, 0));
    assert_eq!(Pixel::white(), Pixel::new(255, 255, 255));
    assert_eq!(Pixel::red(), Pixel::new(255, 0, 0));
    assert_eq!(Pixel::green(), Pixel::new(0, 255, 0));
    assert_eq!(Pixel::blue(), Pixel::new(0, 0, 255));
}

#[test]
fn u16_to_u8_is_little_endian() {
    assert_eq!(u16_to_u8(0x1234), vec![0x34, 0x12]);
}

#[test]
fn u32_to_u8_is_little_endian() {
    assert_eq!(u32_to_u8(0x12345678), vec![0x78, 0x56, 0x34, 0x12]);
}

#[test]
fn offset_to_pads_to_the_boundary() {
    assert_eq!(offset_to(0, 4), 0);
    assert_eq!(offset_to(3, 4), 1);
    assert_eq!(offset_to(4, 4), 0);
    assert_eq!(offset_to(5, 4), 3);
}

#[test]
fn new_rejects_mismatched_column_lengths() {
    let p = Pixel::black();
    let data = vec![vec![p, p], vec![p, p, p]];
    assert_eq!(BitMap::new(data).unwrap_err(), BitMapError::ShapeError);
}

#[test]
fn new_accepts_an_empty_outer_vector() {
    let bm = BitMap::new(Vec::new()).unwrap();
    assert_eq!(bm.size(), (0, 0));
}

#[test]
fn new_accepts_a_rectangle() {
    let p = Pixel::new(9, 8, 7);
    let data = vec![vec![p, p, p], vec![p, p, p]];
    let bm = BitMap::new(data).unwrap();
    assert_eq!(bm.size(), (2, 3));
    assert_eq!(bm.get_pixel(1, 2).unwrap(), p);
}

#[test]
fn new_blank_fills_every_cell() {
    let bm = BitMap::new_blank(Pixel::blue(), 4, 2);
    assert_eq!(bm.size(), (4, 2));
    for x in 0..4 {
        for y in 0..2 {
            assert_eq!(bm.get_pixel(x, y).unwrap(), Pixel::blue());
        }
    }
}

#[test]
fn new_from_generator_runs_the_generator_on_each_cell() {
    let gen = |x: u32, y: u32| Pixel::new(x as u8, y as u8, 0);
    let bm = BitMap::new_from_generator(&gen, 3, 2);
    assert_eq!(bm.size(), (3, 2));
    for x in 0..3 {
        for y in 0..2 {
            assert_eq!(bm.get_pixel(x, y).unwrap(), Pixel::new(x as u8, y as u8, 0));
        }
    }
}

#[test]
fn get_and_set_pixel_fail_out_of_range() {
    let mut bm = BitMap::new_blank(Pixel::white(), 2, 2);
    assert_eq!(bm.get_pixel(2, 0).unwrap_err(), BitMapError::IndexOutOfRange);
    assert_eq!(bm.get_pixel(0, 2).unwrap_err(), BitMapError::IndexOutOfRange);
    assert_eq!(bm.set_pixel(2, 0, Pixel::red()).unwrap_err(), BitMapError::IndexOutOfRange);
    assert_eq!(bm.set_pixel(0, 2, Pixel::red()).unwrap_err(), BitMapError::IndexOutOfRange);
}

#[test]
fn set_pixel_changes_only_its_cell() {
    let mut bm = BitMap::new_blank(Pixel::white(), 3, 3);
    bm.set_pixel(1, 2, Pixel::green()).unwrap();
    for x in 0..3 {
        for y in 0..3 {
            let want = if (x, y) == (1, 2) { Pixel::green() } else { Pixel::white() };
            assert_eq!(bm.get_pixel(x, y).unwrap(), want);
        }
    }
}

#[test]
fn vertical_line_paints_exactly_its_six_pixels() {
    let mut bm = BitMap::new_blank(Pixel::white(), 3, 6);
    bm.draw_line((0, 0), (0, 5), Pixel::black());
    for x in 0..3 {
        for y in 0..6 {
            let want = if x == 0 { Pixel::black() } else { Pixel::white() };
            assert_eq!(bm.get_pixel(x, y).unwrap(), want);
        }
    }
}

#[test]
fn diagonal_line_interpolates_and_rounds() {
    // From (0,0) to (4,2) the x axis dominates; the interpolated rows are
    // 0, 0.5, 1, 1.5, 2, rounded (ties away from zero) to 0, 1, 1, 2, 2.
    let mut bm = BitMap::new_blank(Pixel::white(), 5, 3);
    bm.draw_line((0, 0), (4, 2), Pixel::red());
    let painted = [(0u32, 0u32), (1, 1), (2, 1), (3, 2), (4, 2)];
    for x in 0..5 {
        for y in 0..3 {
            let want = if painted.contains(&(x, y)) { Pixel::red() } else { Pixel::white() };
            assert_eq!(bm.get_pixel(x, y).unwrap(), want);
        }
    }
}

#[test]
fn single_pixel_red_image_is_exactly_58_bytes() {
    let bm = BitMap::new_blank(Pixel::red(), 1, 1);
    let bytes = bm.encode_bmp();
    let expected: Vec<u8> = vec![
        66, 77, // 'B', 'M'
        57, 0, 0, 0, // file size field: 54 + 3, padding not counted
        0, 0, 0, 0, // reserved
        54, 0, 0, 0, // offset to pixel data
        40, 0, 0, 0, // info header length
        1, 0, 0, 0, // width
        1, 0, 0, 0, // height
        1, 0, // planes
        24, 0, // bits per pixel
        0, 0, 0, 0, // compression
        0, 0, 0, 0, // image size
        100, 0, 0, 0, // horizontal resolution
        100, 0, 0, 0, // vertical resolution
        0, 0, 0, 0, // colors used
        0, 0, 0, 0, // important colors
        0, 0, 255, // the one pixel, blue-green-red order
        0, // row padding to a four-byte boundary
    ];
    assert_eq!(bytes.len(), 58);
    assert_eq!(bytes, expected);
}

#[test]
fn encoded_header_gives_back_width_height_and_unpadded_size() {
    let gen = |_x: u32, _y: u32| Pixel::new(10, 20, 30);
    let bm = BitMap::new_from_generator(&gen, 5, 3);
    let bytes = bm.encode_bmp();
    let read_le32 = |b: &[u8], i: usize| -> u32 {
        b[i] as u32 + 256 * (b[i + 1] as u32 + 256 * (b[i + 2] as u32 + 256 * b[i + 3] as u32))
    };
    assert_eq!(read_le32(&bytes, 18), 5);
    assert_eq!(read_le32(&bytes, 22), 3);
    assert_eq!(read_le32(&bytes, 2), 54 + 5 * 3 * 3);
    // The file itself holds one more padding byte per row than the size
    // field counts.
    assert_eq!(bytes.len(), 54 + 3 * (5 * 3 + 1));
}

#[test]
fn empty_grid_encodes_to_headers_alone() {
    let bm = BitMap::new(Vec::new()).unwrap();
    let bytes = bm.encode_bmp();
    assert_eq!(bytes.len(), 54);
    // The size field is 54: headers only, no pixel data.
    assert_eq!(&bytes[2..6], &[54, 0, 0, 0]);
}

#[test]
fn zero_height_grid_encodes_no_rows() {
    let bm = BitMap::new_blank(Pixel::white(), 3, 0);
    let bytes = bm.encode_bmp();
    assert_eq!(bytes.len(), 54);
    assert_eq!(&bytes[18..22], &[3, 0, 0, 0]);
    assert_eq!(&bytes[22..26], &[0, 0, 0, 0]);
}

#[test]
fn rows_are_stored_bottom_to_top_in_bgr_order() {
    let mut bm = BitMap::new_blank(Pixel::white(), 1, 2);
    bm.set_pixel(0, 0, Pixel::new(1, 2, 3)).unwrap();
    bm.set_pixel(0, 1, Pixel::new(4, 5, 6)).unwrap();
    let bytes = bm.encode_bmp();
    // The bottom row of the file is the row with the highest index.
    assert_eq!(&bytes[54..57], &[6, 5, 4]);
    assert_eq!(&bytes[58..61], &[3, 2, 1]);
}
