use std::path::Path;

use mg30_extract::container::{Firmware, NuxDfuHeader, SectionEntry};
use mg30_extract::export::{
    build_manifest_entry, image_subdir, images_dir, png_filename, ImageExport,
};
use mg30_extract::hash::{hex_lower, sha512_hex};
use mg30_extract::image_format::{ImageRecord, ImageRecordHeader};
use mg30_extract::numbers::{parse_hex_usize, HexError};
use mg30_extract::text::{push_decimal, push_hexadecimal};

fn record(offset: usize, width: u16, height: u16) -> ImageRecord {
    ImageRecord {
        offset,
        header: ImageRecordHeader { bpp: 4, width, height, palette_entries: 16, rle_words: 100 },
    }
}

#[test]
fn numbers_are_written_as_format_does() {
    for n in [0u64, 1, 9, 10, 15, 16, 255, 256, 12345, 0xdead_beef, u64::MAX] {
        let mut s = String::from("x");
        push_decimal(&mut s, n, 0);
        push_decimal(&mut s, n, 4);
        push_hexadecimal(&mut s, n, 0);
        push_hexadecimal(&mut s, n, 8);
        assert_eq!(s, format!("x{n}{n:04}{n:x}{n:08x}"));
    }
}

#[test]
fn pictures_are_named_after_their_places() {
    assert_eq!(
        png_filename(7, 0x141f4a0, 0x145de10, &record(0, 320, 240)),
        "img_0007_clean_0141f4a0_orig_0145de10_240x320_bpp4_pal16.png"
    );
    assert_eq!(
        png_filename(12345, 0x1_2345_6789, 0, &record(0, 1, 2)),
        "img_12345_clean_123456789_orig_00000000_2x1_bpp4_pal16.png"
    );
    assert_ne!(png_filename(1, 0, 0, &record(0, 1, 1)), png_filename(10, 0, 0, &record(0, 1, 1)));
}

#[test]
fn large_pictures_have_a_directory_of_their_own() {
    assert_eq!(image_subdir(49_999, 50_000), "small");
    assert_eq!(image_subdir(50_000, 50_000), "large");
    assert_eq!(image_subdir(0, 0), "large");
    let joined = |subdir: &str| {
        let [images, subdir] = images_dir(subdir);
        Path::new("out").join(images).join(subdir)
    };
    assert_eq!(images_dir("large"), ["images", "large"]);
    assert_eq!(joined("large"), Path::new("out/images/large"));
    assert_eq!(joined(""), Path::new("out/images/"));
    assert_eq!(joined("/elsewhere"), Path::new("/elsewhere"));
}

#[test]
fn entries_describe_their_pictures() {
    let entry = build_manifest_entry(
        3,
        &record(0x00fa6e3c, 10, 20),
        0x1000,
        "images/small/a.png",
        String::from("digest"),
    );
    assert_eq!(entry.index, 3);
    assert_eq!(entry.png, "images/small/a.png");
    assert_eq!(entry.clean_bina_offset, 0x00fa6e3c);
    assert_eq!(entry.clean_abs_offset, 0x00fa7e3c);
    assert_eq!(entry.original_abs_offset, 0x00fa7e58);
    assert_eq!((entry.width, entry.height), (10, 20));
    assert_eq!((entry.output_width, entry.output_height), (20, 10));
    assert_eq!((entry.bpp, entry.palette_entries, entry.rle_words), (4, 16, 100));
    assert_eq!(entry.record_size_bytes, 12 + 32 + 200);
    assert_eq!(entry.sha512, "digest");
}

fn firmware() -> Firmware {
    Firmware {
        header: NuxDfuHeader {
            magic: *b"NUX DFU",
            version_byte: 1,
            total_size: 0,
            unknown_0c: 0,
            unknown_10: 0,
            product_name: String::from("MG-30"),
            vendor: String::from("NUX"),
            version: String::from("V1"),
        },
        sections: vec![
            SectionEntry { tag: String::from("TEXT"), size: 1, offset: 2 },
            SectionEntry { tag: String::from("BINA"), size: 3, offset: 4 },
        ],
    }
}

#[test]
fn exports_count_small_and_large_pictures() {
    let mut export = ImageExport::new();
    for (i, r) in [record(0, 10, 10), record(500, 20, 20), record(1000, 5, 5)].iter().enumerate() {
        let plan = export.plan(r, 0x100, 200);
        assert_eq!(plan.subdir, if i == 1 { "large" } else { "small" });
        assert_eq!(plan.png_rel, format!("images/{}/{}", plan.subdir, plan.filename));
        let abs = 0x100 + r.offset;
        assert_eq!(plan.filename, png_filename(i, abs, abs, r));
        export.add(r, 0x100, 200, &plan.png_rel, format!("{i}"));
    }
    assert_eq!((export.small_count, export.large_count), (2, 1));
    let manifest = export.finish(&firmware(), 4096, 200);
    assert_eq!(manifest.summary.firmware_product, "MG-30");
    assert_eq!(manifest.summary.firmware_version, "V1");
    assert_eq!(manifest.summary.sections, vec!["TEXT", "BINA"]);
    assert_eq!(manifest.summary.clean_bina_size, 4096);
    assert_eq!(manifest.summary.image_count, 3);
    assert_eq!(manifest.summary.small_count, 2);
    assert_eq!(manifest.summary.large_count, 1);
    assert_eq!(manifest.summary.large_threshold, 200);
    let numbers: Vec<usize> = manifest.images.iter().map(|e| e.index).collect();
    assert_eq!(numbers, vec![0, 1, 2]);
    assert_eq!(manifest.images[2].sha512, "2");
}

#[test]
fn digests_are_written_in_hexadecimal() {
    assert_eq!(
        sha512_hex(b"hello world"),
        "309ecc489c12d6eb4cc40f50c902f2b4d0ed77ee511a7c7a9bcd3ca86d4cd86f\
         989dd35bc5ff499670da34255b45b0cfd830e81f605dcf7dc5542e93ae9cd76f"
    );
    assert_eq!(
        sha512_hex(b""),
        "cf83e1357eefb8bdf1542850d66d8007d620e4050b5715dc83f4a921d36ce9ce\
         47d0d13c5d85f2b0ff8318d2877eec2f63b931bd47417a81a538327af927da3e"
    );
    assert_eq!(hex_lower(&[0, 1, 0x0f, 0xa0, 0xff]), "00010fa0ff");
    assert_ne!(hex_lower(&[1, 0]), hex_lower(&[0, 0x10]));
}

#[test]
fn offsets_are_read_in_hexadecimal() {
    assert_eq!(parse_hex_usize("141f4a0"), Ok(0x141f4a0));
    assert_eq!(parse_hex_usize("0x141F4a0"), Ok(0x141f4a0));
    assert_eq!(parse_hex_usize("0"), Ok(0));
    assert_eq!(parse_hex_usize("+ff"), Ok(255));
    assert_eq!(parse_hex_usize("0x+10"), Ok(16));
    assert_eq!(parse_hex_usize(&format!("{:x}", usize::MAX)), Ok(usize::MAX));
}

#[test]
fn offsets_that_are_no_numbers_are_refused() {
    assert_eq!(parse_hex_usize(""), Err(HexError::Empty));
    assert_eq!(parse_hex_usize("0x"), Err(HexError::Empty));
    assert_eq!(parse_hex_usize("+"), Err(HexError::InvalidDigit));
    assert_eq!(parse_hex_usize("-1"), Err(HexError::InvalidDigit));
    assert_eq!(parse_hex_usize("12g"), Err(HexError::InvalidDigit));
    assert_eq!(parse_hex_usize("0X10"), Err(HexError::InvalidDigit));
    assert_eq!(parse_hex_usize("0x0x1"), Err(HexError::InvalidDigit));
    assert_eq!(parse_hex_usize("\u{661}"), Err(HexError::InvalidDigit));
    assert_eq!(parse_hex_usize(&format!("{:x}0", usize::MAX)), Err(HexError::Overflow));
}

#[test]
fn offsets_are_read_as_std_reads_them() {
    for text in ["", "+", "1", "+1", "++1", "fF", "00000000000000000000001", "1_0", "zz", " 1"] {
        let expected = usize::from_str_radix(text, 16).ok();
        assert_eq!(parse_hex_usize(text).ok(), expected);
    }
}
