use shp_decoder::config::AppConfig;
use shp_decoder::error::Ra2Error;
use shp_decoder::output_name::frame_file_name;
use shp_decoder::palette::{PalColor, Palette};
use shp_decoder::selection::{is_half_selected, validate_paths, PathError};
use shp_decoder::shp_frame::{decompress_rle_data, rle_counter_overflows, ShpFrame};
use shp_decoder::shp_reader::{
    can_decode_frames, decode_shp_to_rgba_image, has_shp_extension, ShpReader,
};

fn palette_bytes() -> Vec<u8> {
    let mut bytes = Vec::new();
    for i in 0..256u32 {
        bytes.push(i as u8);
        bytes.push((255 - i) as u8);
        bytes.push((i / 2) as u8);
    }
    bytes
}

fn pal() -> Palette {
    Palette::decode(&palette_bytes()).unwrap()
}

fn le16(v: u16) -> [u8; 2] {
    v.to_le_bytes()
}

fn frame_header(x: u16, y: u16, w: u16, h: u16, flags: u8, offset: u32) -> Vec<u8> {
    let mut b = Vec::new();
    b.extend_from_slice(&le16(x));
    b.extend_from_slice(&le16(y));
    b.extend_from_slice(&le16(w));
    b.extend_from_slice(&le16(h));
    b.push(flags);
    b.extend_from_slice(&[7, 8, 9]);
    b.extend_from_slice(&0xAABBCCDDu32.to_le_bytes());
    b.extend_from_slice(&[1, 2, 3, 4]);
    b.extend_from_slice(&offset.to_le_bytes());
    b
}

/// A 4x3 canvas with two frames: a raw 2x2 frame at (1, 1) and an encoded
/// 3x1 frame at (0, 0).
fn sample_shp() -> Vec<u8> {
    let mut file = Vec::new();
    file.extend_from_slice(&le16(0));
    file.extend_from_slice(&le16(4));
    file.extend_from_slice(&le16(3));
    file.extend_from_slice(&le16(2));
    let data_start = 8 + 2 * 24;
    file.extend(frame_header(1, 1, 2, 2, 0, data_start as u32));
    file.extend(frame_header(0, 0, 3, 1, 2, (data_start + 4) as u32));
    // raw frame: indices 1, 0, 2, 3
    file.extend_from_slice(&[1, 0, 2, 3]);
    // encoded row: length 5 = 2 + [5] + [0, 2]
    file.extend_from_slice(&le16(5));
    file.extend_from_slice(&[5, 0, 2]);
    file
}

#[test]
fn palette_decode_rejects_wrong_length() {
    assert_eq!(Palette::decode(&[0u8; 767]).err(), Some(Ra2Error::InvalidPaletteLength));
    assert_eq!(Palette::decode(&[0u8; 769]).err(), Some(Ra2Error::InvalidPaletteLength));
    assert_eq!(Palette::decode(&[]).err(), Some(Ra2Error::InvalidPaletteLength));
}

#[test]
fn palette_decode_and_lookup() {
    let p = Palette::decode(&palette_bytes()).unwrap();
    assert_eq!(p.get_color(0).unwrap(), PalColor { red: 0, green: 255, blue: 0 });
    assert_eq!(p.get_color(10).unwrap(), PalColor { red: 10, green: 245, blue: 5 });
    assert_eq!(p.get_color(255).unwrap(), PalColor { red: 255, green: 0, blue: 127 });
    assert_eq!(PalColor { red: 1, green: 2, blue: 3 }.to_rgba(), (1, 2, 3, 255));
}

#[test]
fn frame_header_is_read_little_endian() {
    let data = frame_header(0x1234, 0x0102, 3, 4, 2, 0x0A0B0C0D);
    let mut f = ShpFrame::default();
    assert!(f.read_shp_frame_header(&data, 0).is_ok());
    assert_eq!((f.x, f.y, f.width, f.height, f.flags), (0x1234, 0x0102, 3, 4, 2));
    assert_eq!(f.reserved1, [7, 8, 9]);
    assert_eq!(f.color, 0xAABBCCDD);
    assert_eq!(f.reserved2, [1, 2, 3, 4]);
    assert_eq!(f.offset, 0x0A0B0C0D);
}

#[test]
fn frame_header_partial_read() {
    let data = frame_header(5, 6, 7, 8, 0, 9);
    let mut f = ShpFrame::default();
    f.width = 99;
    assert_eq!(f.read_shp_frame_header(&data[..5], 0), Err(Ra2Error::UnexpectedEof));
    assert_eq!((f.x, f.y, f.width), (5, 6, 99));
    let mut g = ShpFrame::default();
    assert_eq!(g.read_shp_frame_header(&data, 1), Err(Ra2Error::UnexpectedEof));
    assert_eq!(g.read_shp_frame_header(&data, 100), Err(Ra2Error::UnexpectedEof));
}

#[test]
fn frame_data_raw_and_empty() {
    let file = [9u8, 9, 1, 2, 3, 4, 5, 6];
    let mut f = ShpFrame::default();
    f.width = 3;
    f.height = 2;
    f.offset = 2;
    assert!(f.read_shp_frame_data(&file).is_ok());
    assert_eq!(f.buffer, vec![1, 2, 3, 4, 5, 6]);

    let mut empty = ShpFrame::default();
    empty.width = 3;
    empty.height = 2;
    assert!(empty.read_shp_frame_data(&file).is_ok());
    assert!(empty.buffer.is_empty());

    let mut short = ShpFrame::default();
    short.width = 3;
    short.height = 2;
    short.offset = 4;
    assert_eq!(short.read_shp_frame_data(&file), Err(Ra2Error::UnexpectedEof));
    assert_eq!(short.buffer, vec![0; 6]);

    let mut nothing = ShpFrame::default();
    nothing.width = 0;
    nothing.height = 5;
    nothing.offset = 1000;
    assert!(nothing.read_shp_frame_data(&file).is_ok());
    assert!(nothing.buffer.is_empty());
}

#[test]
fn rle_literals_runs_cut_and_pad() {
    // row 1: literal 7, run of 3 transparent, literal 8 -> cut to 4 pixels
    // row 2: literal 9 only -> padded to 4 pixels
    let data = [6u8, 0, 7, 0, 3, 8, 3, 0, 9];
    assert_eq!(decompress_rle_data(&data, 0, 4, 2).unwrap(), vec![7, 0, 0, 0, 9, 0, 0, 0]);
    // a row shorter than its length bytes holds no pixel
    assert_eq!(decompress_rle_data(&[2, 0], 0, 2, 1).unwrap(), vec![0, 0]);
    // no rows: nothing is read
    assert_eq!(decompress_rle_data(&[], 5, 3, 0).unwrap(), Vec::<u8>::new());
}

#[test]
fn rle_runs_out_of_data() {
    assert_eq!(decompress_rle_data(&[5], 0, 2, 1), Err(Ra2Error::UnexpectedEof));
    assert_eq!(decompress_rle_data(&[5, 0, 1], 0, 2, 1), Err(Ra2Error::UnexpectedEof));
    assert_eq!(decompress_rle_data(&[4, 0, 0], 0, 2, 1), Err(Ra2Error::UnexpectedEof));
    assert_eq!(decompress_rle_data(&[3, 0, 1], 0, 2, 2), Err(Ra2Error::UnexpectedEof));
}

#[test]
fn frame_data_compressed() {
    let file = [0u8, 0, 5, 0, 4, 0, 2];
    let mut f = ShpFrame::default();
    f.width = 3;
    f.height = 1;
    f.flags = 2;
    f.offset = 2;
    assert!(f.read_shp_frame_data(&file).is_ok());
    assert_eq!(f.buffer, vec![4, 0, 0]);
    let mut g = ShpFrame::default();
    g.width = 3;
    g.height = 2;
    g.flags = 3;
    g.offset = 2;
    g.buffer = vec![1];
    assert_eq!(g.read_shp_frame_data(&file), Err(Ra2Error::UnexpectedEof));
    assert_eq!(g.buffer, vec![1]);
}

#[test]
fn create_image_paints_frame() {
    let palette = Palette::decode(&palette_bytes()).unwrap();
    let mut f = ShpFrame::default();
    f.x = 1;
    f.y = 0;
    f.width = 2;
    f.height = 1;
    f.buffer = vec![0, 10];
    assert!(f.fits_canvas(3, 2));
    let img = f.create_image(&palette, 3, 2);
    assert_eq!((img.width, img.height), (3, 2));
    let mut expected = vec![0u8; 3 * 2 * 4];
    expected[8..12].copy_from_slice(&[10, 245, 5, 255]);
    assert_eq!(img.pixels, expected);
    assert_eq!(f.create_image(&palette, 3, 2).pixels, img.pixels);
}

#[test]
fn fits_canvas_limits() {
    let mut f = ShpFrame::default();
    f.x = 2;
    f.y = 1;
    f.width = 2;
    f.height = 2;
    f.buffer = vec![1, 1, 1, 1];
    assert!(f.fits_canvas(4, 3));
    assert!(!f.fits_canvas(3, 3));
    assert!(!f.fits_canvas(4, 2));
    f.buffer = vec![1, 1, 1];
    assert!(!f.fits_canvas(4, 3));
    f.width = 0;
    assert!(f.fits_canvas(0, 0));
}

#[test]
fn reader_header_and_frames() {
    assert_eq!(ShpReader::new(vec![1, 2, 3]).err(), Some(Ra2Error::UnexpectedEof));
    let reader = ShpReader::new(sample_shp()).unwrap();
    let h = reader.header();
    assert_eq!((h._reserved, h.width, h.height, h.number_of_frames), (0, 4, 3, 2));
    let f0 = reader.get_frame(0).unwrap();
    assert_eq!((f0.x, f0.y, f0.width, f0.height), (1, 1, 2, 2));
    assert_eq!(f0.buffer, vec![1, 0, 2, 3]);
    let f1 = reader.get_frame(1).unwrap();
    assert_eq!(f1.buffer, vec![5, 0, 0]);
    assert!(reader.get_frame(2).is_err());
    assert!(reader.get_frame(1000).is_err());
}

fn pixel(img: &shp_decoder::shp_frame::RgbaFrame, x: usize, y: usize) -> [u8; 4] {
    let i = (y * img.width as usize + x) * 4;
    [img.pixels[i], img.pixels[i + 1], img.pixels[i + 2], img.pixels[i + 3]]
}

#[test]
fn decode_all_frames() {
    let shp = sample_shp();
    assert!(can_decode_frames(&shp, false));
    let images = decode_shp_to_rgba_image(shp, &pal(), "sample.shp", false).unwrap();
    assert_eq!(images.len(), 2);
    let a = &images[0];
    assert_eq!((a.width, a.height, a.pixels.len()), (4, 3, 48));
    assert_eq!(pixel(a, 0, 0), [0, 0, 0, 0]);
    assert_eq!(pixel(a, 1, 1), [1, 254, 0, 255]);
    assert_eq!(pixel(a, 2, 1), [0, 0, 0, 0]);
    assert_eq!(pixel(a, 1, 2), [2, 253, 1, 255]);
    assert_eq!(pixel(a, 2, 2), [3, 252, 1, 255]);
    assert_eq!(pixel(a, 3, 2), [0, 0, 0, 0]);
    let b = &images[1];
    assert_eq!(pixel(b, 0, 0), [5, 250, 2, 255]);
    assert_eq!(pixel(b, 1, 0), [0, 0, 0, 0]);
    assert_eq!(pixel(b, 0, 1), [0, 0, 0, 0]);
}

#[test]
fn decode_half_and_extension() {
    let images = decode_shp_to_rgba_image(sample_shp(), &pal(), "sample.shp", true).unwrap();
    assert_eq!(images.len(), 1);
    let full = decode_shp_to_rgba_image(sample_shp(), &pal(), "sample.shp", false).unwrap();
    assert_eq!(images[0].pixels, full[0].pixels);
    assert_eq!((images[0].width, images[0].height), (full[0].width, full[0].height));
    let none = decode_shp_to_rgba_image(sample_shp(), &pal(), "sample.pal", false).unwrap();
    assert!(none.is_empty());
}

#[test]
fn decode_errors() {
    assert_eq!(
        decode_shp_to_rgba_image(vec![0, 0, 4], &pal(), "sample.shp", false).err(),
        Some(Ra2Error::UnexpectedEof)
    );
    // the header of the second frame is cut off
    let mut cut = sample_shp();
    cut.truncate(8 + 24 + 10);
    assert_eq!(
        decode_shp_to_rgba_image(cut.clone(), &pal(), "sample.shp", false).err(),
        Some(Ra2Error::UnexpectedEof)
    );
    assert!(decode_shp_to_rgba_image(cut, &pal(), "sample.shp", true).is_err());
}

#[test]
fn frames_that_leave_the_canvas() {
    let mut shp = sample_shp();
    // move the first frame to x = 3: its 2 pixel wide rows pass the canvas
    shp[8] = 3;
    assert!(!can_decode_frames(&shp, false));
    assert!(can_decode_frames(&[1, 2], false));
}

#[test]
fn path_validation() {
    assert_eq!(validate_paths("", "a.shp", "out"), Err(PathError::PalPathEmpty));
    assert_eq!(validate_paths("", "", ""), Err(PathError::PalPathEmpty));
    assert_eq!(validate_paths("a.pal", "", "out"), Err(PathError::ShpPathEmpty));
    assert_eq!(validate_paths("a.pal", "a.shp", ""), Err(PathError::ExtractionPathEmpty));
    assert_eq!(validate_paths("a.pal", "a.shp", "out"), Ok(()));
}

#[test]
fn half_selection() {
    assert!(is_half_selected(Some(0)));
    assert!(!is_half_selected(Some(1)));
    assert!(is_half_selected(None));
}

#[test]
fn config_default() {
    let c = AppConfig::default();
    assert!(c.pal_path.is_empty() && c.shp_path.is_empty() && c.output_path.is_empty());
    assert_eq!(c.half_index, 0);
}

/// One encoded row whose declared length is 65535 bytes and whose last
/// token is a transparent run that starts at byte 65534.
fn overflowing_row() -> Vec<u8> {
    let mut data = le16(65535).to_vec();
    data.extend(std::iter::repeat(1u8).take(65532));
    data.extend_from_slice(&[0, 4]);
    data
}

#[test]
fn rle_row_count_overflow_is_detected() {
    let data = overflowing_row();
    assert!(rle_counter_overflows(&data, 0, 4, 1));
    // one literal byte fewer: the run starts at byte 65533 and fits
    let mut ok = le16(65535).to_vec();
    ok.extend(std::iter::repeat(1u8).take(65531));
    ok.extend_from_slice(&[0, 4, 1]);
    assert!(!rle_counter_overflows(&ok, 0, 4, 1));
    assert_eq!(decompress_rle_data(&ok, 0, 4, 1).unwrap(), vec![1, 1, 1, 1]);
    // the data ends before the count byte: reading stops first
    let mut short = data.clone();
    short.pop();
    assert!(!rle_counter_overflows(&short, 0, 4, 1));
}

#[test]
fn shp_with_overflowing_row_is_refused() {
    let mut file = Vec::new();
    file.extend_from_slice(&le16(0));
    file.extend_from_slice(&le16(4));
    file.extend_from_slice(&le16(1));
    file.extend_from_slice(&le16(1));
    file.extend(frame_header(0, 0, 4, 1, 2, 32));
    file.extend(overflowing_row());
    assert!(!can_decode_frames(&file, false));
    // with half of the single frame, no frame is decoded
    assert!(can_decode_frames(&file, true));
}

#[test]
fn frame_file_names() {
    assert_eq!(frame_file_name("unit", 7), "unit_007.png");
    assert_eq!(frame_file_name("unit", 0), "unit_000.png");
    assert_eq!(frame_file_name("tank", 42), "tank_042.png");
    assert_eq!(frame_file_name("a b", 999), "a b_999.png");
    assert_eq!(frame_file_name("x", 1234), "x_1234.png");
    assert_eq!(frame_file_name("", 10), "_010.png");
    for i in 0..2000usize {
        assert_eq!(frame_file_name("n", i), format!("n_{:03}.png", i));
    }
}

#[test]
fn literal_rows_decode_like_raw_data() {
    let raw = [3u8, 4, 5, 6, 7, 8];
    let mut encoded = Vec::new();
    for row in raw.chunks(3) {
        encoded.extend_from_slice(&le16(5));
        encoded.extend_from_slice(row);
    }
    assert_eq!(decompress_rle_data(&encoded, 0, 3, 2).unwrap(), raw.to_vec());
}

#[test]
fn shp_extension_of_file_names() {
    assert!(has_shp_extension("unit.shp"));
    assert!(has_shp_extension("a.b.shp"));
    assert!(has_shp_extension("a..shp"));
    assert!(has_shp_extension("x.shp"));
    assert!(!has_shp_extension(".shp"));
    assert!(!has_shp_extension("shp"));
    assert!(!has_shp_extension("unit.SHP"));
    assert!(!has_shp_extension("unit.shp.bak"));
    assert!(!has_shp_extension("unit.shpx"));
    assert!(!has_shp_extension(""));
    assert!(has_shp_extension("\u{e9}t\u{e9}.shp"));
}

#[test]
fn rows_decode_independently() {
    // two complete rows, then one more row after them
    let a = [5u8, 0, 7, 0, 2, 3, 0, 9];
    let b = [4u8, 0, 0, 3];
    let x = decompress_rle_data(&a, 0, 3, 2).unwrap();
    let y = decompress_rle_data(&b, 0, 3, 1).unwrap();
    let joined: Vec<u8> = a.iter().chain(b.iter()).copied().collect();
    let mut expected = x.clone();
    expected.extend(y);
    assert_eq!(decompress_rle_data(&joined, 0, 3, 3).unwrap(), expected);
    // when the rows of b fail, so do the joined rows
    let bad = [9u8, 0, 1];
    assert!(decompress_rle_data(&bad, 0, 3, 1).is_err());
    let joined_bad: Vec<u8> = a.iter().chain(bad.iter()).copied().collect();
    assert!(decompress_rle_data(&joined_bad, 0, 3, 3).is_err());
}
