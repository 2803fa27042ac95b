use mg30_extract::container::{
    parse_nux_dfu, parse_nux_dfu_header, parse_sections, read_u16_le, read_u32_le, section_bytes,
    section_filename, SECTION_TABLE_OFFSET,
};
use mg30_extract::error::Error;
use mg30_extract::firmware::load_bina;

fn put(data: &mut Vec<u8>, off: usize, bytes: &[u8]) {
    data[off..off + bytes.len()].copy_from_slice(bytes);
}

/// A firmware file with room for the table of the given sections and their bytes after it.
fn firmware(sections: &[(&[u8; 4], &[u8])]) -> Vec<u8> {
    let table_end = SECTION_TABLE_OFFSET + 12 * (sections.len() + 1);
    let mut data = vec![0u8; table_end];
    put(&mut data, 0, b"NUX DFU");
    data[7] = 0x2a;
    put(&mut data, 0x0c, &0x01020304u32.to_le_bytes());
    put(&mut data, 0x10, &0xdeadbeefu32.to_le_bytes());
    put(&mut data, 0x14, b"MG-30");
    put(&mut data, 0x114, b"NUX");
    put(&mut data, 0x214, b"V1.2.3");
    for (i, (tag, bytes)) in sections.iter().enumerate() {
        let slot = SECTION_TABLE_OFFSET + 12 * i;
        let offset = data.len() as u32;
        put(&mut data, slot, &tag[..]);
        put(&mut data, slot + 4, &(bytes.len() as u32).to_le_bytes());
        put(&mut data, slot + 8, &offset.to_le_bytes());
        data.extend_from_slice(bytes);
    }
    let size = data.len() as u32;
    put(&mut data, 0x08, &size.to_le_bytes());
    data
}

#[test]
fn numbers_are_little_endian() {
    let buf = [0x01, 0x02, 0x03, 0x04, 0xff];
    assert_eq!(read_u16_le(&buf, 0), Ok(0x0201));
    assert_eq!(read_u16_le(&buf, 3), Ok(0xff04));
    assert_eq!(read_u32_le(&buf, 0), Ok(0x04030201));
    assert_eq!(read_u32_le(&buf, 1), Ok(0xff040302));
}

#[test]
fn numbers_past_the_end_are_refused() {
    let buf = [0x01, 0x02, 0x03, 0x04];
    assert_eq!(read_u16_le(&buf, 3), Err(Error::U16OutOfBounds));
    assert_eq!(read_u16_le(&buf, usize::MAX), Err(Error::U16OutOfBounds));
    assert_eq!(read_u32_le(&buf, 1), Err(Error::U32OutOfBounds));
    assert_eq!(read_u32_le(&[], 0), Err(Error::U32OutOfBounds));
}

#[test]
fn header_is_read() {
    let data = firmware(&[]);
    let header = parse_nux_dfu_header(&data).unwrap();
    assert_eq!(&header.magic, b"NUX DFU");
    assert_eq!(header.version_byte, 0x2a);
    assert_eq!(header.total_size as usize, data.len());
    assert_eq!(header.unknown_0c, 0x01020304);
    assert_eq!(header.unknown_10, 0xdeadbeef);
    assert_eq!(header.product_name, "MG-30");
    assert_eq!(header.vendor, "NUX");
    assert_eq!(header.version, "V1.2.3");
}

#[test]
fn fields_without_a_zero_are_taken_whole() {
    let mut data = firmware(&[]);
    put(&mut data, 0x214, b"0123456789abcdef");
    let header = parse_nux_dfu_header(&data).unwrap();
    assert_eq!(header.version, "0123456789abcdef");
}

#[test]
fn text_that_is_no_utf8_gets_replacement_characters() {
    let mut data = firmware(&[]);
    put(&mut data, 0x14, &[b'M', 0xff, b'G', 0]);
    put(&mut data, 0x114, "N\u{fc}x".as_bytes());
    let header = parse_nux_dfu_header(&data).unwrap();
    assert_eq!(header.product_name, "M\u{fffd}G");
    assert_eq!(header.vendor, "N\u{fc}x");
}

#[test]
fn small_files_are_refused() {
    let data = vec![0u8; SECTION_TABLE_OFFSET - 1];
    assert_eq!(parse_nux_dfu_header(&data).unwrap_err(), Error::FirmwareTooSmall);
    assert_eq!(parse_nux_dfu(&data).unwrap_err(), Error::FirmwareTooSmall);
}

#[test]
fn wrong_magic_is_refused() {
    let mut data = firmware(&[]);
    data[6] = b'X';
    assert_eq!(
        parse_nux_dfu_header(&data).unwrap_err(),
        Error::InvalidMagic { magic: *b"NUX DFX" }
    );
}

#[test]
fn wrong_size_is_refused() {
    let mut data = firmware(&[]);
    let size = data.len();
    data.push(0);
    assert_eq!(
        parse_nux_dfu_header(&data).unwrap_err(),
        Error::TotalSizeMismatch { total_size: size as u32, file_size: size + 1 }
    );
}

#[test]
fn sections_are_read_up_to_the_first_free_place() {
    let data = firmware(&[(b"TEXT", b"abc"), (b"BINA", b"0123"), (b"EX\0\0", b"")]);
    let sections = parse_sections(&data).unwrap();
    assert_eq!(sections.len(), 3);
    assert_eq!(sections[0].tag, "TEXT");
    assert_eq!(sections[0].size, 3);
    assert_eq!(sections[0].offset, SECTION_TABLE_OFFSET + 48);
    assert_eq!(sections[1].tag, "BINA");
    assert_eq!(sections[1].offset, SECTION_TABLE_OFFSET + 51);
    assert_eq!(sections[2].tag, "EX\0\0");
    assert_eq!(section_bytes(&data, &sections[1]), b"0123");
    assert_eq!(section_filename(&sections[0]), "TEXT.bin");
}

#[test]
fn unprintable_tags_end_the_table() {
    let data = firmware(&[(b"TEXT", b"abc"), (b"BI\x01A", b"0123"), (b"EXTR", b"")]);
    assert_eq!(parse_sections(&data).unwrap().len(), 1);
    let data = firmware(&[(b"TEX\x7f", b"abc")]);
    assert_eq!(parse_sections(&data).unwrap().len(), 0);
    let data = firmware(&[(b"TEX\x7e", b"abc")]);
    assert_eq!(parse_sections(&data).unwrap().len(), 1);
}

#[test]
fn tables_may_reach_the_end_of_the_file() {
    assert_eq!(parse_sections(&[]).unwrap().len(), 0);
    let mut data = firmware(&[(b"TEXT", b"")]);
    data.truncate(SECTION_TABLE_OFFSET + 12);
    put(&mut data, SECTION_TABLE_OFFSET + 8, &0u32.to_le_bytes());
    assert_eq!(parse_sections(&data).unwrap().len(), 1);
}

#[test]
fn sections_outside_the_file_are_refused() {
    let mut data = firmware(&[(b"TEXT", b"abc"), (b"BINA", b"0123")]);
    let slot = SECTION_TABLE_OFFSET + 12;
    put(&mut data, slot + 4, &5u32.to_le_bytes());
    let offset = SECTION_TABLE_OFFSET as u32 + 39;
    let expected = Error::InvalidSection { tag: *b"BINA", offset, size: 5 };
    assert_eq!(parse_sections(&data).unwrap_err(), expected);
    assert_eq!(parse_nux_dfu(&data).unwrap_err(), expected);
    put(&mut data, slot + 4, &u32::MAX.to_le_bytes());
    assert_eq!(
        parse_sections(&data).unwrap_err(),
        Error::InvalidSection { tag: *b"BINA", offset, size: u32::MAX }
    );
}

#[test]
fn the_first_section_of_a_name_is_found() {
    let data = firmware(&[(b"TEXT", b"a"), (b"BINA", b"first"), (b"BINA", b"second")]);
    let fw = parse_nux_dfu(&data).unwrap();
    assert_eq!(fw.section("BINA").unwrap().size, 5);
    assert!(fw.section("EXTR").is_none());
    assert_eq!(fw.header.product_name, "MG-30");
}

#[test]
fn bina_is_loaded() {
    let data = firmware(&[(b"TEXT", b"a"), (b"BINA", b"section")]);
    let size = data.len();
    for depacketize in [true, false] {
        let loaded = load_bina(data.clone(), depacketize).unwrap();
        assert_eq!(loaded.clean_bina, b"section");
        assert_eq!(loaded.bina_abs_offset, size - 7);
        assert_eq!(loaded.data, data);
        assert_eq!(loaded.fw.sections.len(), 2);
    }
}

#[test]
fn firmware_without_bina_is_refused() {
    let data = firmware(&[(b"TEXT", b"a")]);
    assert_eq!(load_bina(data, true).unwrap_err(), Error::BinaNotFound);
    assert_eq!(load_bina(Vec::new(), true).unwrap_err(), Error::FirmwareTooSmall);
}
