use mg30_extract::container::SECTION_TABLE_OFFSET;
use mg30_extract::depacketize::{
    clean_bina_rel_to_original_abs, depacketize_bina, FRAME_SIZE, FRAME_START_BINA_REL,
};
use mg30_extract::error::Error;
use mg30_extract::export::{build_manifest_entry, ManifestImageEntry};
use mg30_extract::firmware::load_bina;
use mg30_extract::hash::sha512_hex;
use mg30_extract::image_format::{
    decode_image, rgb565_to_rgb888, validate_image_record, ImageRecord, ImageRecordHeader,
};
use mg30_extract::palette::{build_palette, color_distance_sq, rgb888_to_rgb565};
use mg30_extract::raster::RgbImage;
use mg30_extract::repack::{
    encode_pixels, encode_record, extract_source_pixels, patch_record, validate_entries, Packer,
};
use mg30_extract::rle::rle_encode;
use mg30_extract::waves::parse_wav_at;

fn entry(bpp: u16, width: u16, height: u16, palette_entries: u16, size: usize) -> ManifestImageEntry {
    ManifestImageEntry {
        index: 0,
        png: String::from("images/small/a.png"),
        clean_bina_offset: 0,
        clean_abs_offset: 0,
        original_abs_offset: 0,
        width,
        height,
        output_width: height,
        output_height: width,
        bpp,
        palette_entries,
        rle_words: 0,
        record_size_bytes: size,
        sha512: sha512_hex(b"file"),
    }
}

fn put(data: &mut Vec<u8>, off: usize, bytes: &[u8]) {
    data[off..off + bytes.len()].copy_from_slice(bytes);
}

/// A firmware file whose one section holds `bina`.
fn firmware(bina: &[u8]) -> Vec<u8> {
    let mut data = vec![0u8; SECTION_TABLE_OFFSET + 24];
    put(&mut data, 0, b"NUX DFU");
    put(&mut data, SECTION_TABLE_OFFSET, b"BINA");
    put(&mut data, SECTION_TABLE_OFFSET + 4, &(bina.len() as u32).to_le_bytes());
    let offset = data.len() as u32;
    put(&mut data, SECTION_TABLE_OFFSET + 8, &offset.to_le_bytes());
    data.extend_from_slice(bina);
    let size = data.len() as u32;
    put(&mut data, 8, &size.to_le_bytes());
    data
}

#[test]
fn colours_are_reduced_to_the_nearest() {
    assert_eq!(rgb888_to_rgb565([0, 0, 0]), 0);
    assert_eq!(rgb888_to_rgb565([255, 255, 255]), 0xffff);
    assert_eq!(rgb888_to_rgb565([255, 128, 0]), 0xfc00);
    assert_eq!(rgb888_to_rgb565([4, 2, 4]), 0);
    assert_eq!(rgb888_to_rgb565([5, 3, 5]), 0x0821);
    assert_eq!(rgb888_to_rgb565([200, 100, 50]), 0xc326);
}

#[test]
fn every_colour_survives_expansion() {
    for c in 0..=0xffffu16 {
        assert_eq!(rgb888_to_rgb565(rgb565_to_rgb888(c)), c);
    }
}

#[test]
fn distances_are_squares() {
    assert_eq!(color_distance_sq([1, 2, 3], [1, 2, 3]), 0);
    assert_eq!(color_distance_sq([0, 0, 0], [255, 255, 255]), 195_075);
    assert_eq!(color_distance_sq([10, 0, 7], [13, 4, 5]), 29);
}

#[test]
fn palettes_are_ranked_by_frequency_and_colour() {
    let (a, b, c) = ([255, 0, 0], [0, 0, 255], [0, 255, 0]);
    let pixels = [a, b, b, c, a, [255, 255, 255], b];
    let (palette, indices) = build_palette(&pixels, 6);
    assert_eq!(palette, vec![0x001f, 0xf800, 0x07e0, 0xffff, 0, 0]);
    assert_eq!(indices, vec![1, 0, 0, 2, 1, 3, 0]);
    let (palette, indices) = build_palette(&[c, a], 1);
    assert_eq!(palette, vec![0x07e0]);
    assert_eq!(indices, vec![0, 0]);
    assert_eq!(build_palette(&[], 2), (vec![0, 0], Vec::new()));
    assert_eq!(build_palette(&[a], 0), (Vec::new(), vec![0]));
}

#[test]
fn colours_outside_the_palette_take_the_nearest() {
    let white = [255, 255, 255];
    let pixels = [white, white, white, [0, 0, 0], [0, 0, 0], [240, 250, 245], [20, 0, 0]];
    let (palette, indices) = build_palette(&pixels, 2);
    assert_eq!(palette, vec![0xffff, 0]);
    assert_eq!(indices, vec![0, 0, 0, 1, 1, 0, 1]);
}

#[test]
fn of_equal_entries_the_first_is_taken() {
    let (palette, indices) = build_palette(&[[0, 0, 0]], 3);
    assert_eq!(palette, vec![0, 0, 0]);
    assert_eq!(indices, vec![0]);
}

#[test]
fn runs_are_taken_as_far_as_they_go() {
    assert_eq!(rle_encode(&[1, 1, 2], 4), Ok(vec![17, 2]));
    assert_eq!(rle_encode(&[], 4), Ok(Vec::new()));
    assert_eq!(rle_encode(&[7; 300], 8), Ok(vec![0xff07, 0x2b07]));
    assert_eq!(rle_encode(&[1; 4], 14), Ok(vec![0xc001]));
    assert_eq!(rle_encode(&[1; 5], 14), Ok(vec![0xc001, 0x0001]));
    assert_eq!(rle_encode(&[0; 65_536], 0), Ok(vec![0xffff]));
}

#[test]
fn indices_that_do_not_fit_are_refused() {
    assert_eq!(rle_encode(&[0, 3, 3, 5, 4], 2), Err(Error::IndexTooLarge { index: 5, bpp: 2 }));
    assert_eq!(rle_encode(&[1], 0), Err(Error::IndexTooLarge { index: 1, bpp: 0 }));
    assert!(rle_encode(&[0, 3, 3], 2).is_ok());
}

#[test]
fn upright_images_are_turned_back() {
    let image = RgbImage::from_raw(2, 3, (0..18).collect()).unwrap();
    let pixels = extract_source_pixels(&image, &entry(4, 3, 2, 16, 0)).unwrap();
    assert_eq!(
        pixels,
        vec![[0, 1, 2], [6, 7, 8], [12, 13, 14], [3, 4, 5], [9, 10, 11], [15, 16, 17]]
    );
    assert_eq!(
        extract_source_pixels(&image, &entry(4, 2, 3, 16, 0)).unwrap_err(),
        Error::DimensionMismatch { expected_width: 3, expected_height: 2, width: 2, height: 3 }
    );
}

#[test]
fn records_are_encoded() {
    let pixels = [[255, 0, 0], [255, 0, 0], [0, 0, 255]];
    let bytes = encode_pixels(&entry(2, 3, 1, 3, 26), &pixels).unwrap();
    assert_eq!(
        bytes,
        vec![
            2, 0, 3, 0, 1, 0, 3, 0, 2, 0, 0, 0, 0x00, 0xf8, 0x1f, 0x00, 0x00, 0x00, 0x04, 0x00,
            0x01, 0x00, 0, 0, 0, 0,
        ]
    );
    assert_eq!(
        encode_pixels(&entry(2, 3, 1, 3, 21), &pixels).unwrap_err(),
        Error::RecordTooLarge { encoded_size: 22, limit: 21 }
    );
}

#[test]
fn images_are_encoded_upright() {
    let image = RgbImage::from_raw(1, 3, vec![255, 0, 0, 255, 0, 0, 0, 0, 255]).unwrap();
    let e = entry(2, 3, 1, 3, 22);
    let bytes = encode_record(&e, &image).unwrap();
    assert_eq!(bytes, encode_pixels(&e, &[[255, 0, 0], [255, 0, 0], [0, 0, 255]]).unwrap());
    assert_eq!(
        encode_record(&entry(0, 1, 1, 1, 22), &image).unwrap_err(),
        Error::InvalidBpp { bpp: 0 }
    );
    assert_eq!(
        encode_record(&entry(1, 1, 1, 3, 22), &image).unwrap_err(),
        Error::InvalidPaletteEntries { bpp: 1, palette_entries: 3 }
    );
    assert_eq!(
        encode_record(&entry(2, 1, 3, 3, 22), &image).unwrap_err(),
        Error::DimensionMismatch { expected_width: 3, expected_height: 1, width: 1, height: 3 }
    );
    assert_eq!(
        encode_record(&entry(2, 3, 1, 3, 20), &image).unwrap_err(),
        Error::RecordTooLarge { encoded_size: 22, limit: 20 }
    );
}

#[test]
fn records_are_written_to_their_places() {
    let mut file = vec![0u8; 20];
    let mut e = entry(1, 1, 1, 1, 3);
    e.clean_bina_offset = 4;
    assert_eq!(patch_record(&mut file, &e, &[1, 2, 3], 10), Ok(()));
    let mut expected = vec![0u8; 20];
    expected[14..17].copy_from_slice(&[1, 2, 3]);
    assert_eq!(file, expected);
    assert_eq!(
        patch_record(&mut file, &e, &[1, 2], 10),
        Err(Error::RecordLengthMismatch { length: 2, record_size: 3 })
    );
    assert_eq!(file, expected);
    assert_eq!(
        patch_record(&mut file, &e, &[7, 8, 9], 14),
        Err(Error::PatchOutOfBounds { clean_rel: 6, abs: 20 })
    );
    expected[18] = 7;
    expected[19] = 8;
    assert_eq!(file, expected);
}

#[test]
fn records_are_written_around_frame_headers() {
    let mut bina = vec![0u8; FRAME_START_BINA_REL + 2 * FRAME_SIZE];
    for f in 0..2 {
        bina[FRAME_START_BINA_REL + f * FRAME_SIZE + 3] = 0x04;
    }
    let clean = depacketize_bina(&bina);
    let mut e = entry(1, 1, 1, 1, 600);
    e.clean_bina_offset = FRAME_START_BINA_REL - 20;
    let record: Vec<u8> = (0..600).map(|i| (i % 255 + 1) as u8).collect();
    assert_eq!(patch_record(&mut bina, &e, &record, 0), Ok(()));
    assert_eq!(bina[clean_bina_rel_to_original_abs(FRAME_START_BINA_REL + 512, 0)], record[532]);
    assert_eq!(&bina[FRAME_START_BINA_REL..FRAME_START_BINA_REL + 4], &[0, 0, 0, 4]);
    let after = depacketize_bina(&bina);
    let mut expected = clean;
    expected[FRAME_START_BINA_REL - 20..FRAME_START_BINA_REL + 580].copy_from_slice(&record);
    assert!(after == expected);
}

#[test]
fn manifests_are_checked() {
    let good = || entry(4, 1, 1, 16, 100);
    assert_eq!(validate_entries(&[]), Ok(()));
    assert_eq!(validate_entries(&[good(), good()]), Ok(()));
    assert_eq!(
        validate_entries(&[good(), entry(4, 1, 1, 17, 100), entry(9, 1, 1, 1, 100)]),
        Err((1, Error::InvalidPaletteEntries { bpp: 4, palette_entries: 17 }))
    );
    assert_eq!(
        validate_entries(&[entry(9, 1, 1, 1, 100), good()]),
        Err((0, Error::InvalidBpp { bpp: 9 }))
    );
}

#[test]
fn packing_needs_a_bina_section() {
    assert_eq!(Packer::new(Vec::new()).unwrap_err(), Error::FirmwareTooSmall);
    let mut data = firmware(b"0123");
    data[SECTION_TABLE_OFFSET] = b'X';
    assert_eq!(Packer::new(data).unwrap_err(), Error::BinaNotFound);
}

#[test]
fn unchanged_pictures_are_skipped() {
    let data = firmware(&[5; 50]);
    let mut packer = Packer::new(data.clone()).unwrap();
    assert_eq!(packer.bina_abs_offset, data.len() - 50);
    let e = entry(2, 3, 1, 3, 22);
    assert!(!packer.examine(&e, b"file"));
    assert!(packer.examine(&e, b"other"));
    assert!(packer.note_hash(&e, &String::from("0")));
    assert!(!packer.note_hash(&e, &e.sha512));
    let (file, summary) = packer.finish(2);
    assert_eq!(file, data);
    assert_eq!((summary.total, summary.skipped_unchanged, summary.patched), (2, 2, 0));
}

#[test]
fn changed_pictures_are_packed_and_found_again() {
    let data = firmware(&[5; 50]);
    let base = data.len() - 50;
    let mut packer = Packer::new(data.clone()).unwrap();
    let mut e = entry(2, 3, 1, 3, 30);
    e.clean_bina_offset = 8;
    let image = RgbImage::from_raw(1, 3, vec![255, 0, 0, 253, 0, 2, 0, 0, 255]).unwrap();
    assert_eq!(packer.patch(&e, &image), Ok(()));
    assert_eq!(
        packer.patch(&entry(2, 3, 1, 3, 10), &image),
        Err(Error::RecordTooLarge { encoded_size: 22, limit: 10 })
    );
    let (file, summary) = packer.finish(1);
    assert_eq!((summary.total, summary.skipped_unchanged, summary.patched), (1, 0, 1));
    assert_eq!(file[..base + 8], data[..base + 8]);
    assert_eq!(file[base + 38..], data[base + 38..]);
    let loaded = load_bina(file, true).unwrap();
    let record = validate_image_record(&loaded.clean_bina, 8).unwrap();
    assert_eq!(record.header.rle_words, 2);
    let shown = decode_image(&loaded.clean_bina, &record).unwrap();
    assert_eq!((shown.width(), shown.height()), (1, 3));
    assert_eq!(shown.into_raw(), vec![255, 0, 0, 255, 0, 0, 0, 0, 255]);
}

#[test]
fn packing_past_the_end_is_refused() {
    let data = firmware(&[5; 20]);
    let mut packer = Packer::new(data.clone()).unwrap();
    let mut e = entry(2, 3, 1, 3, 22);
    e.clean_bina_offset = 6;
    let image = RgbImage::from_raw(1, 3, vec![0; 9]).unwrap();
    assert_eq!(
        packer.patch(&e, &image),
        Err(Error::PatchOutOfBounds { clean_rel: 20, abs: data.len() })
    );
    assert_eq!(packer.patched, 0);
}

#[test]
fn extracted_pictures_pack_again_as_they_are() {
    let mut buf = Vec::new();
    let palette: [u16; 4] = [0x1234, 0x8410, 0xf800, 0x8410];
    let words: [u16; 6] = [0x04, 0x01, 0x03, 0x06, 0x00, 0x0a];
    for v in [2u16, 5, 2, 4] {
        buf.extend_from_slice(&v.to_le_bytes());
    }
    buf.extend_from_slice(&6u32.to_le_bytes());
    for v in palette.iter().chain(&words) {
        buf.extend_from_slice(&v.to_le_bytes());
    }
    let record = ImageRecord {
        offset: 0,
        header: ImageRecordHeader { bpp: 2, width: 5, height: 2, palette_entries: 4, rle_words: 6 },
    };
    assert_eq!(validate_image_record(&buf, 0), Some(record));
    let image = decode_image(&buf, &record).unwrap();
    let e = build_manifest_entry(0, &record, 0, "a.png", String::new());
    let again = encode_record(&e, &image).unwrap();
    assert_eq!(again.len(), buf.len());
    let record_again = validate_image_record(&again, 0).unwrap();
    assert_eq!(record_again.header.rle_words, 5);
    let image_again = decode_image(&again, &record_again).unwrap();
    assert_eq!(image_again.into_raw(), image.into_raw());
}

#[test]
fn packing_keeps_other_pictures_and_sounds() {
    let encode = |colour: [u8; 3]| encode_pixels(&entry(1, 2, 2, 2, 20), &[colour; 4]).unwrap();
    let mut bina = encode([255, 0, 0]);
    bina.extend_from_slice(&encode([0, 255, 0]));
    let sound_at = bina.len();
    bina.extend_from_slice(b"RIFF\x28\0\0\0WAVEfmt \x10\0\0\0\x01\0\x01\0\x40\x1f\0\0");
    bina.extend_from_slice(b"\x40\x1f\0\0\x01\0\x08\0data\x04\0\0\0\x01\x02\x03\x04");
    let data = firmware(&bina);
    let mut packer = Packer::new(data).unwrap();
    let image = RgbImage::from_raw(2, 2, [0, 0, 255].repeat(4)).unwrap();
    assert_eq!(packer.patch(&entry(1, 2, 2, 2, 20), &image), Ok(()));
    let (file, _) = packer.finish(1);
    let loaded = load_bina(file, true).unwrap();
    let colour = |off: usize| -> [u8; 3] {
        let record = validate_image_record(&loaded.clean_bina, off).unwrap();
        decode_image(&loaded.clean_bina, &record).unwrap().get_pixel(1, 1)
    };
    assert_eq!(colour(0), [0, 0, 255]);
    assert_eq!(colour(20), [0, 255, 0]);
    let sound = parse_wav_at(&loaded.clean_bina, sound_at, 0).unwrap().unwrap();
    assert_eq!((sound.sample_rate, sound.sample_frames), (8000, 4));
    assert_eq!(sound.bytes(&loaded.clean_bina), &bina[sound_at..]);
}
