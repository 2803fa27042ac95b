use mg30_extract::error::Error;
use mg30_extract::image_format::{
    decode_image, decode_rle_word, rgb565_to_rgb888, validate_bpp_and_palette,
    validate_image_record, ImageRecord, ImageRecordHeader,
};
use mg30_extract::raster::RgbImage;
use mg30_extract::scanner::{
    find_image_records, remove_overlaps, IMAGE_SCAN_START_CANDIDATE_BINA_REL,
};

const RED: u16 = 0xf800;
const GREEN: u16 = 0x07e0;
const BLUE: u16 = 0x001f;

fn picture(bpp: u16, width: u16, height: u16, palette: &[u16], words: &[u16]) -> Vec<u8> {
    let mut out = Vec::new();
    for v in [bpp, width, height, palette.len() as u16] {
        out.extend_from_slice(&v.to_le_bytes());
    }
    out.extend_from_slice(&(words.len() as u32).to_le_bytes());
    for v in palette.iter().chain(words) {
        out.extend_from_slice(&v.to_le_bytes());
    }
    out
}

fn word(index: u16, run: u16, bpp: u16) -> u16 {
    ((run - 1) << bpp) | index
}

/// Three columns and two rows: red, red, green; blue, blue, blue.
fn flag() -> Vec<u8> {
    picture(2, 3, 2, &[RED, GREEN, BLUE], &[word(0, 2, 2), word(1, 1, 2), word(2, 3, 2)])
}

fn header(bpp: u16, width: u16, height: u16, palette_entries: u16, rle_words: u32) -> ImageRecordHeader {
    ImageRecordHeader { bpp, width, height, palette_entries, rle_words }
}

#[test]
fn colours_are_expanded() {
    assert_eq!(rgb565_to_rgb888(0), [0, 0, 0]);
    assert_eq!(rgb565_to_rgb888(0xffff), [255, 255, 255]);
    assert_eq!(rgb565_to_rgb888(RED), [255, 0, 0]);
    assert_eq!(rgb565_to_rgb888(GREEN), [0, 255, 0]);
    assert_eq!(rgb565_to_rgb888(BLUE), [0, 0, 255]);
    assert_eq!(rgb565_to_rgb888(0x8410), [131, 129, 131]);
    assert_eq!(rgb565_to_rgb888(0x1234), [16, 68, 164]);
}

#[test]
fn words_give_index_and_run() {
    assert_eq!(decode_rle_word(0, 4), (0, 1));
    assert_eq!(decode_rle_word(0x0035, 4), (5, 4));
    assert_eq!(decode_rle_word(0xffff, 8), (255, 256));
    assert_eq!(decode_rle_word(0xffff, 1), (1, 32768));
    assert_eq!(decode_rle_word(0xffff, 0), (0, 65536));
}

#[test]
fn depth_and_palette_go_together() {
    assert_eq!(validate_bpp_and_palette(1, 1), Ok(()));
    assert_eq!(validate_bpp_and_palette(8, 256), Ok(()));
    assert_eq!(validate_bpp_and_palette(0, 1), Err(Error::InvalidBpp { bpp: 0 }));
    assert_eq!(validate_bpp_and_palette(9, 1), Err(Error::InvalidBpp { bpp: 9 }));
    assert_eq!(
        validate_bpp_and_palette(4, 0),
        Err(Error::InvalidPaletteEntries { bpp: 4, palette_entries: 0 })
    );
    assert_eq!(
        validate_bpp_and_palette(4, 17),
        Err(Error::InvalidPaletteEntries { bpp: 4, palette_entries: 17 })
    );
}

#[test]
fn pictures_are_recognised() {
    let mut buf = vec![0xaa; 5];
    buf.extend_from_slice(&flag());
    let record = validate_image_record(&buf, 5).unwrap();
    assert_eq!(record, ImageRecord { offset: 5, header: header(2, 3, 2, 3, 3) });
    assert_eq!(record.record_size_bytes(), 24);
    assert_eq!(record.end(), 29);
    assert_eq!(record.area(), 6);
    assert_eq!(record.output_dimensions(), (2, 3));
    assert_eq!(validate_image_record(&buf, 4), None);
    assert_eq!(validate_image_record(&buf, usize::MAX), None);
    buf.pop();
    assert_eq!(validate_image_record(&buf, 5), None);
}

#[test]
fn implausible_pictures_are_not_recognised() {
    assert!(validate_image_record(&picture(1, 800, 40, &[RED], &[word(0, 32000, 1)]), 0).is_some());
    assert!(validate_image_record(&picture(1, 801, 39, &[RED], &[word(0, 31239, 1)]), 0).is_none());
    assert!(validate_image_record(&picture(1, 32, 1000, &[RED], &[word(0, 32000, 1)]), 0).is_some());
    assert!(validate_image_record(&picture(1, 31, 1001, &[RED], &[word(0, 31031, 1)]), 0).is_none());
    assert!(validate_image_record(&picture(1, 0, 1, &[RED], &[]), 0).is_none());
    assert!(validate_image_record(&picture(9, 1, 1, &[RED], &[0]), 0).is_none());
    assert!(validate_image_record(&picture(1, 1, 1, &[], &[0]), 0).is_none());
    assert!(validate_image_record(&picture(1, 1, 1, &[RED, RED, RED], &[0]), 0).is_none());
}

#[test]
fn streams_have_to_cover_the_picture_exactly() {
    assert!(validate_image_record(&picture(2, 2, 2, &[RED], &[word(0, 4, 2)]), 0).is_some());
    assert!(validate_image_record(&picture(2, 2, 2, &[RED], &[word(0, 3, 2)]), 0).is_none());
    assert!(validate_image_record(&picture(2, 2, 2, &[RED], &[word(0, 5, 2)]), 0).is_none());
    assert!(validate_image_record(&picture(2, 2, 2, &[RED], &[word(1, 4, 2)]), 0).is_none());
    assert!(validate_image_record(&picture(2, 2, 2, &[RED, BLUE], &[word(1, 4, 2)]), 0).is_some());
    let mut cut = picture(2, 2, 2, &[RED], &[word(0, 2, 2), word(0, 2, 2)]);
    assert!(validate_image_record(&cut, 0).is_some());
    cut.truncate(cut.len() - 2);
    assert!(validate_image_record(&cut, 0).is_none());
}

#[test]
fn pictures_decode_upright() {
    let buf = flag();
    let record = validate_image_record(&buf, 0).unwrap();
    let image = decode_image(&buf, &record).unwrap();
    assert_eq!(image.width(), 2);
    assert_eq!(image.height(), 3);
    let (red, green, blue) = ([255, 0, 0], [0, 255, 0], [0, 0, 255]);
    assert_eq!(image.get_pixel(0, 0), red);
    assert_eq!(image.get_pixel(0, 1), red);
    assert_eq!(image.get_pixel(0, 2), green);
    assert_eq!(image.get_pixel(1, 0), blue);
    assert_eq!(image.get_pixel(1, 1), blue);
    assert_eq!(image.get_pixel(1, 2), blue);
    assert_eq!(
        image.into_raw(),
        vec![255, 0, 0, 0, 0, 255, 255, 0, 0, 0, 0, 255, 0, 255, 0, 0, 0, 255]
    );
}

#[test]
fn too_many_pixels_fail_to_decode() {
    let buf = picture(2, 2, 2, &[RED], &[word(0, 5, 2)]);
    let record = ImageRecord { offset: 0, header: header(2, 2, 2, 1, 1) };
    assert_eq!(decode_image(&buf, &record).unwrap_err(), Error::TooManyPixels);
}

#[test]
fn too_few_pixels_fail_to_decode() {
    let buf = picture(2, 2, 2, &[RED], &[word(0, 3, 2)]);
    let record = ImageRecord { offset: 0, header: header(2, 2, 2, 1, 1) };
    assert_eq!(
        decode_image(&buf, &record).unwrap_err(),
        Error::PixelCountMismatch { pixels: 3, expected_pixels: 4 }
    );
}

#[test]
fn missing_bytes_fail_to_decode() {
    let buf = picture(2, 2, 2, &[RED], &[word(0, 3, 2)]);
    let record = ImageRecord { offset: 0, header: header(2, 2, 2, 1, 2) };
    assert_eq!(decode_image(&buf, &record).unwrap_err(), Error::U16OutOfBounds);
    let record = ImageRecord { offset: 0, header: header(2, 2, 2, 3, 0) };
    assert_eq!(decode_image(&buf, &record).unwrap_err(), Error::U16OutOfBounds);
}

#[test]
fn empty_pictures_decode() {
    let record = ImageRecord { offset: 0, header: header(2, 0, 5, 0, 0) };
    let image = decode_image(&[], &record).unwrap();
    assert_eq!((image.width(), image.height()), (5, 0));
}

#[test]
fn images_need_enough_bytes() {
    assert!(RgbImage::from_raw(2, 2, vec![0; 11]).is_none());
    let image = RgbImage::from_raw(2, 2, (0..12).collect()).unwrap();
    assert_eq!((image.width(), image.height()), (2, 2));
    assert_eq!(image.get_pixel(1, 0), [3, 4, 5]);
    assert_eq!(image.get_pixel(0, 1), [6, 7, 8]);
    let image = RgbImage::from_raw(1, 2, (0..9).collect()).unwrap();
    assert_eq!(image.get_pixel(0, 1), [3, 4, 5]);
    assert_eq!(image.into_raw().len(), 9);
    assert!(RgbImage::from_raw(u32::MAX, u32::MAX, Vec::new()).is_none());
}

fn at(offset: usize, words: u32) -> ImageRecord {
    ImageRecord { offset, header: header(1, 1, 1, 1, words) }
}

#[test]
fn overlapping_records_are_removed() {
    let records = vec![at(100, 1), at(0, 1), at(15, 1), at(16, 10), at(52, 1), at(40, 2)];
    let r = remove_overlaps(records);
    assert_eq!(r, vec![at(0, 1), at(16, 10), at(52, 1), at(100, 1)]);
    assert_eq!(remove_overlaps(r.clone()), r);
    assert_eq!(remove_overlaps(Vec::new()), Vec::new());
}

#[test]
fn of_equal_offsets_the_first_is_kept() {
    let r = remove_overlaps(vec![at(8, 3), at(8, 1), at(8, 2)]);
    assert_eq!(r, vec![at(8, 3)]);
    let r = remove_overlaps(vec![at(usize::MAX, 1), at(0, 1)]);
    assert_eq!(r, vec![at(0, 1), at(usize::MAX, 1)]);
}

#[test]
fn pictures_are_found_every_four_bytes() {
    assert_eq!(IMAGE_SCAN_START_CANDIDATE_BINA_REL, 0x0141f4a0);
    let mut buf = vec![0u8; 8];
    buf.extend_from_slice(&flag());
    buf.extend_from_slice(&[0; 3]);
    buf.extend_from_slice(&flag());
    buf.extend_from_slice(&[0; 13]);
    buf.extend_from_slice(&flag());
    let offsets = |start: usize, area: usize| -> Vec<usize> {
        find_image_records(&buf, start, area).iter().map(|r| r.offset).collect()
    };
    assert_eq!(offsets(0, 1), vec![8, 72]);
    assert_eq!(offsets(0, 6), vec![8, 72]);
    assert_eq!(offsets(0, 7), Vec::<usize>::new());
    assert_eq!(offsets(9, 1), Vec::<usize>::new());
    assert_eq!(offsets(3, 1), vec![35]);
    assert_eq!(offsets(12, 1), vec![72]);
    assert_eq!(offsets(usize::MAX, 1), Vec::<usize>::new());
}
