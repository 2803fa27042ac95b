//! The NUX DFU container: a fixed header, a table of sections, and the sections' bytes.

use vstd::prelude::*;
use vstd::utf8::{decode_utf8, valid_utf8};

use crate::error::Error;
use crate::text::{ascii_text, lemma_ascii_text, lossy_text, text_from_bytes};

verus! {

/// Where the section table begins.
pub const SECTION_TABLE_OFFSET: usize = 0x224;

/// The size of one entry of the section table: tag, size, offset.
pub const SECTION_ENTRY_SIZE: usize = 12;

/// The header of a NUX DFU file.
#[derive(Debug, Clone)]
pub struct NuxDfuHeader {
    pub magic: [u8; 7],
    pub version_byte: u8,
    pub total_size: u32,
    pub unknown_0c: u32,
    pub unknown_10: u32,
    pub product_name: String,
    pub vendor: String,
    pub version: String,
}

/// One entry of the section table.
#[derive(Debug, Clone)]
pub struct SectionEntry {
    pub tag: String,
    pub size: usize,
    pub offset: usize,
}

/// A parsed NUX DFU file.
#[derive(Debug, Clone)]
pub struct Firmware {
    pub header: NuxDfuHeader,
    pub sections: Vec<SectionEntry>,
}

/// The 16-bit little-endian number at `off`.
pub open spec fn u16_le(bytes: Seq<u8>, off: int) -> u16 {
    (bytes[off] + 0x100 * bytes[off + 1]) as u16
}

/// The 32-bit little-endian number at `off`.
pub open spec fn u32_le(bytes: Seq<u8>, off: int) -> u32 {
    (bytes[off] + 0x100 * bytes[off + 1] + 0x1_0000 * bytes[off + 2] + 0x100_0000 * bytes[off
        + 3]) as u32
}

/// The bytes before the first zero byte, or all of them.
pub open spec fn until_zero(bytes: Seq<u8>) -> Seq<u8>
    decreases bytes.len(),
{
    if bytes.len() == 0 || bytes[0] == 0 {
        Seq::empty()
    } else {
        seq![bytes[0]] + until_zero(bytes.drop_first())
    }
}

/// The bytes of the text in a zero-padded field of `len` bytes at `off`.
pub open spec fn padded_bytes(bytes: Seq<u8>, off: int, len: int) -> Seq<u8> {
    until_zero(bytes.subrange(off, off + len))
}

/// `text` is the text in a zero-padded field of `len` bytes at `off`: the characters that the
/// bytes before the first zero encode or, where these are no UTF-8, what is read out of them
/// nevertheless.
pub open spec fn padded_text(text: Seq<char>, bytes: Seq<u8>, off: int, len: int) -> bool {
    let field = padded_bytes(bytes, off, len);
    &&& text == lossy_text(field)
    &&& valid_utf8(field) ==> text == decode_utf8(field)
}

/// The seven bytes `NUX DFU`.
pub open spec fn magic_bytes() -> Seq<u8> {
    seq![0x4e, 0x55, 0x58, 0x20, 0x44, 0x46, 0x55]
}

/// Whether `data` begins with a NUX DFU header that agrees with the size of `data`.
pub open spec fn header_valid(data: Seq<u8>) -> bool {
    &&& data.len() >= SECTION_TABLE_OFFSET
    &&& data.subrange(0, 7) == magic_bytes()
    &&& u32_le(data, 0x08) == data.len()
}

/// `header` holds what stands in the first bytes of `data`.
pub open spec fn header_reads(data: Seq<u8>, header: NuxDfuHeader) -> bool {
    &&& header.magic@ == data.subrange(0, 7)
    &&& header.version_byte == data[7]
    &&& header.total_size == u32_le(data, 0x08)
    &&& header.unknown_0c == u32_le(data, 0x0c)
    &&& header.unknown_10 == u32_le(data, 0x10)
    &&& padded_text(header.product_name@, data, 0x14, 0x100)
    &&& padded_text(header.vendor@, data, 0x114, 0x100)
    &&& padded_text(header.version@, data, 0x214, 0x10)
}

/// The failure that `data` is refused with when its header is not valid.
pub open spec fn header_refused(data: Seq<u8>, e: Error) -> bool {
    if data.len() < SECTION_TABLE_OFFSET {
        e == Error::FirmwareTooSmall
    } else if data.subrange(0, 7) != magic_bytes() {
        e matches Error::InvalidMagic { magic } && magic@ == data.subrange(0, 7)
    } else {
        &&& u32_le(data, 0x08) != data.len()
        &&& e matches Error::TotalSizeMismatch { total_size, file_size }
        &&& total_size == u32_le(data, 0x08)
        &&& file_size == data.len()
    }
}

/// Where entry `i` of the section table stands.
pub open spec fn section_slot(i: int) -> int {
    SECTION_TABLE_OFFSET + i * SECTION_ENTRY_SIZE
}

/// The four tag bytes of entry `i`.
pub open spec fn section_tag(data: Seq<u8>, i: int) -> Seq<u8> {
    data.subrange(section_slot(i), section_slot(i) + 4)
}

/// The size that entry `i` gives.
pub open spec fn section_size(data: Seq<u8>, i: int) -> u32 {
    u32_le(data, section_slot(i) + 4)
}

/// The file offset that entry `i` gives.
pub open spec fn section_offset(data: Seq<u8>, i: int) -> u32 {
    u32_le(data, section_slot(i) + 8)
}

/// A byte that may stand in a tag: zero or printable ASCII.
pub open spec fn tag_byte(b: u8) -> bool {
    b == 0 || 0x20 <= b <= 0x7e
}

/// Whether the table has an entry at place `i`: it lies inside the file, and its tag is
/// printable and not all zero.
pub open spec fn section_present(data: Seq<u8>, i: int) -> bool {
    &&& section_slot(i) + SECTION_ENTRY_SIZE <= data.len()
    &&& exists|j: int| 0 <= j < 4 && section_tag(data, i)[j] != 0
    &&& forall|j: int| 0 <= j < 4 ==> tag_byte(#[trigger] section_tag(data, i)[j])
}

/// Whether the section of entry `i` lies inside the file.
pub open spec fn section_fits(data: Seq<u8>, i: int) -> bool {
    section_offset(data, i) + section_size(data, i) <= data.len()
}

/// There is an entry at place `i`, its section lies inside the file, and `section` holds what
/// the entry says.
pub open spec fn section_reads(data: Seq<u8>, i: int, section: SectionEntry) -> bool {
    &&& section_present(data, i)
    &&& section_fits(data, i)
    &&& section.tag@ == ascii_text(section_tag(data, i))
    &&& section.size == section_size(data, i)
    &&& section.offset == section_offset(data, i)
}

/// `sections` are the entries of the table, up to the first place without one, and all of
/// them lie inside the file.
pub open spec fn sections_read(data: Seq<u8>, sections: Seq<SectionEntry>) -> bool {
    &&& forall|i: int|
        0 <= i < sections.len() ==> section_reads(data, i, #[trigger] sections[i])
    &&& !section_present(data, sections.len() as int)
}

/// `e` reports entry `k`, the first of the table that reaches past the end of the file.
pub open spec fn section_refused(data: Seq<u8>, k: int, e: Error) -> bool {
    &&& 0 <= k
    &&& forall|i: int| 0 <= i <= k ==> #[trigger] section_present(data, i)
    &&& forall|i: int| 0 <= i < k ==> #[trigger] section_fits(data, i)
    &&& !section_fits(data, k)
    &&& e matches Error::InvalidSection { tag, offset, size }
    &&& tag@ == section_tag(data, k)
    &&& offset == section_offset(data, k)
    &&& size == section_size(data, k)
}

/// Reads a 16-bit little-endian number.
pub fn read_u16_le(buf: &[u8], off: usize) -> (r: Result<u16, Error>)
    ensures
        r == if off + 2 <= buf@.len() {
            Ok(u16_le(buf@, off as int))
        } else {
            Err(Error::U16OutOfBounds)
        },
{
    if off > buf.len() || buf.len() - off < 2 {
        return Err(Error::U16OutOfBounds);
    }
    Ok(buf[off] as u16 + 0x100 * (buf[off + 1] as u16))
}

/// Reads a 32-bit little-endian number.
pub fn read_u32_le(buf: &[u8], off: usize) -> (r: Result<u32, Error>)
    ensures
        r == if off + 4 <= buf@.len() {
            Ok(u32_le(buf@, off as int))
        } else {
            Err(Error::U32OutOfBounds)
        },
{
    if off > buf.len() || buf.len() - off < 4 {
        return Err(Error::U32OutOfBounds);
    }
    Ok(
        buf[off] as u32 + 0x100 * (buf[off + 1] as u32) + 0x1_0000 * (buf[off + 2] as u32)
            + 0x100_0000 * (buf[off + 3] as u32),
    )
}

proof fn lemma_until_zero(bytes: Seq<u8>, end: int)
    requires
        0 <= end <= bytes.len(),
        forall|i: int| 0 <= i < end ==> bytes[i] != 0,
        end < bytes.len() ==> bytes[end] == 0,
    ensures
        until_zero(bytes) == bytes.take(end),
    decreases bytes.len(),
{
    if end == 0 {
        assert(bytes.take(0) =~= Seq::empty());
    } else {
        lemma_until_zero(bytes.drop_first(), end - 1);
        assert(seq![bytes[0]] + bytes.drop_first().take(end - 1) =~= bytes.take(end));
    }
}

fn read_zero_padded_ascii(buf: &[u8], off: usize, len: usize) -> (r: Result<String, Error>)
    ensures
        match r {
            Ok(text) => off + len <= buf@.len() && padded_text(
                text@,
                buf@,
                off as int,
                len as int,
            ),
            Err(e) => off + len > buf@.len() && e == Error::TextOutOfBounds,
        },
{
    if off > buf.len() || buf.len() - off < len {
        return Err(Error::TextOutOfBounds);
    }
    let field = vstd::slice::slice_subrange(buf, off, off + len);
    let mut end: usize = 0;
    while end < len && field[end] != 0
        invariant
            end <= len,
            field@.len() == len,
            forall|i: int| 0 <= i < end ==> field@[i] != 0,
        decreases len - end,
    {
        end += 1;
    }
    proof {
        lemma_until_zero(field@, end as int);
        assert(field@.subrange(0, end as int) =~= field@.take(end as int));
    }
    Ok(text_from_bytes(vstd::slice::slice_subrange(field, 0, end)))
}

fn is_printable_ascii_tag(tag: &[u8; 4]) -> (r: bool)
    ensures
        r == (forall|j: int| 0 <= j < 4 ==> tag_byte(#[trigger] tag@[j])),
{
    let mut j: usize = 0;
    while j < 4
        invariant
            j <= 4,
            forall|k: int| 0 <= k < j ==> tag_byte(#[trigger] tag@[k]),
        decreases 4 - j,
    {
        let b: u8 = tag[j];
        if !(b == 0 || (0x20 <= b && b <= 0x7e)) {
            assert(!tag_byte(tag@[j as int]));
            return false;
        }
        j += 1;
    }
    true
}

/// Reads the header of a NUX DFU file, checking its magic and its size.
pub fn parse_nux_dfu_header(data: &[u8]) -> (r: Result<NuxDfuHeader, Error>)
    ensures
        match r {
            Ok(header) => header_valid(data@) && header_reads(data@, header),
            Err(e) => header_refused(data@, e),
        },
{
    if data.len() < SECTION_TABLE_OFFSET {
        return Err(Error::FirmwareTooSmall);
    }
    let magic: [u8; 7] = [data[0], data[1], data[2], data[3], data[4], data[5], data[6]];
    assert(magic@ =~= data@.subrange(0, 7));
    if !(magic[0] == 0x4e && magic[1] == 0x55 && magic[2] == 0x58 && magic[3] == 0x20 && magic[4]
        == 0x44 && magic[5] == 0x46 && magic[6] == 0x55) {
        proof {
            if magic@ == magic_bytes() {
                assert(magic@[0] == 0x4e && magic@[1] == 0x55 && magic@[2] == 0x58);
                assert(magic@[3] == 0x20 && magic@[4] == 0x44 && magic@[5] == 0x46);
                assert(magic@[6] == 0x55);
            }
        }
        return Err(Error::InvalidMagic { magic });
    }
    assert(magic@ =~= magic_bytes());
    let version_byte = data[7];
    let total_size = read_u32_le(data, 0x08)?;
    if total_size as u64 != data.len() as u64 {
        return Err(Error::TotalSizeMismatch { total_size, file_size: data.len() });
    }
    Ok(
        NuxDfuHeader {
            magic,
            version_byte,
            total_size,
            unknown_0c: read_u32_le(data, 0x0c)?,
            unknown_10: read_u32_le(data, 0x10)?,
            product_name: read_zero_padded_ascii(data, 0x14, 0x100)?,
            vendor: read_zero_padded_ascii(data, 0x114, 0x100)?,
            version: read_zero_padded_ascii(data, 0x214, 0x10)?,
        },
    )
}

/// Reads the section table, up to the first place that holds no entry.
pub fn parse_sections(data: &[u8]) -> (r: Result<Vec<SectionEntry>, Error>)
    ensures
        match r {
            Ok(sections) => sections_read(data@, sections@),
            Err(e) => exists|k: int| #[trigger] section_refused(data@, k, e),
        },
{
    let mut sections: Vec<SectionEntry> = Vec::new();
    let mut off: usize = SECTION_TABLE_OFFSET;
    while off <= data.len() && data.len() - off >= SECTION_ENTRY_SIZE
        invariant_except_break
            off <= data@.len() || sections@.len() == 0,
        invariant
            off == section_slot(sections@.len() as int),
            forall|i: int|
                0 <= i < sections@.len() ==> section_reads(data@, i, #[trigger] sections@[i]),
        ensures
            !section_present(data@, sections@.len() as int),
        decreases data@.len() + SECTION_TABLE_OFFSET - off,
    {
        let ghost k = sections@.len() as int;
        let tag: [u8; 4] = [data[off], data[off + 1], data[off + 2], data[off + 3]];
        assert(tag@ =~= section_tag(data@, k));
        if tag[0] == 0 && tag[1] == 0 && tag[2] == 0 && tag[3] == 0 {
            assert(forall|j: int| 0 <= j < 4 ==> section_tag(data@, k)[j] == 0);
            break;
        }
        if !is_printable_ascii_tag(&tag) {
            break;
        }
        assert(section_present(data@, k)) by {
            assert(tag@[0] != 0 || tag@[1] != 0 || tag@[2] != 0 || tag@[3] != 0);
        }
        let size = read_u32_le(data, off + 4)?;
        let offset = read_u32_le(data, off + 8)?;
        if offset as u64 + size as u64 > data.len() as u64 {
            let e = Error::InvalidSection { tag, offset, size };
            assert(section_refused(data@, k, e)) by {
                assert forall|i: int| 0 <= i < k implies #[trigger] section_present(data@, i) by {
                    assert(section_reads(data@, i, sections@[i]));
                }
                assert forall|i: int| 0 <= i < k implies #[trigger] section_fits(data@, i) by {
                    assert(section_reads(data@, i, sections@[i]));
                }
            }
            return Err(e);
        }
        let text = text_from_bytes(vstd::slice::slice_subrange(data, off, off + 4));
        proof {
            lemma_ascii_text(section_tag(data@, k));
        }
        sections.push(SectionEntry { tag: text, size: size as usize, offset: offset as usize });
        off += SECTION_ENTRY_SIZE;
    }
    Ok(sections)
}

/// Reads the header and the section table of a NUX DFU file.
pub fn parse_nux_dfu(data: &[u8]) -> (r: Result<Firmware, Error>)
    ensures
        match r {
            Ok(fw) => header_valid(data@) && header_reads(data@, fw.header) && sections_read(
                data@,
                fw.sections@,
            ),
            Err(e) => header_refused(data@, e) || (header_valid(data@) && exists|k: int|
                #[trigger] section_refused(data@, k, e)),
        },
{
    let header = parse_nux_dfu_header(data)?;
    let sections = parse_sections(data)?;
    Ok(Firmware { header, sections })
}

/// `i` is the first place in `sections` that has the tag `tag`.
pub open spec fn first_tagged(sections: Seq<SectionEntry>, tag: Seq<char>, i: int) -> bool {
    &&& 0 <= i < sections.len()
    &&& sections[i].tag@ == tag
    &&& forall|j: int| 0 <= j < i ==> (#[trigger] sections[j]).tag@ != tag
}

impl Firmware {
    /// The first section with the given tag.
    pub fn section(&self, tag: &str) -> (r: Option<&SectionEntry>)
        ensures
            match r {
                Some(section) => exists|i: int|
                    first_tagged(self.sections@, tag@, i) && *section == #[trigger] self.sections@[i],
                None => forall|i: int|
                    0 <= i < self.sections@.len() ==> (#[trigger] self.sections@[i]).tag@ != tag@,
            },
    {
        let wanted: String = tag.to_owned();
        let mut i: usize = 0;
        while i < self.sections.len()
            invariant
                wanted@ == tag@,
                i <= self.sections@.len(),
                forall|j: int| 0 <= j < i ==> (#[trigger] self.sections@[j]).tag@ != tag@,
            decreases self.sections@.len() - i,
        {
            if self.sections[i].tag == wanted {
                assert(first_tagged(self.sections@, tag@, i as int));
                return Some(&self.sections[i]);
            }
            i += 1;
        }
        None
    }
}

/// The bytes of a section.
pub fn section_bytes<'a>(data: &'a [u8], section: &SectionEntry) -> (r: &'a [u8])
    requires
        section.offset + section.size <= data@.len(),
    ensures
        r@ == data@.subrange(section.offset as int, section.offset + section.size),
{
    let file_size = data.len();
    assert(section.offset + section.size <= file_size);
    vstd::slice::slice_subrange(data, section.offset, section.offset + section.size)
}

/// The name of the file that a section is dumped to.
pub fn section_filename(section: &SectionEntry) -> (r: String)
    ensures
        r@ == section.tag@ + ".bin"@,
{
    let mut name = String::new();
    name.append(section.tag.as_str());
    name.append(".bin");
    assert(name@ =~= section.tag@ + ".bin"@);
    name
}

/// Every section of a parsed table lies inside the file, so its bytes can be taken.
pub proof fn sections_lie_inside(data: Seq<u8>, sections: Seq<SectionEntry>)
    requires
        sections_read(data, sections),
    ensures
        forall|i: int|
            0 <= i < sections.len() ==> (#[trigger] sections[i]).offset + sections[i].size
                <= data.len(),
{
    assert forall|i: int| 0 <= i < sections.len() implies (#[trigger] sections[i]).offset
        + sections[i].size <= data.len() by {
        assert(section_reads(data, i, sections[i]));
    }
}

/// A file has one section table: two readings of it agree on every entry.
pub proof fn sections_are_determined(data: Seq<u8>, a: Seq<SectionEntry>, b: Seq<SectionEntry>)
    requires
        sections_read(data, a),
        sections_read(data, b),
    ensures
        a.len() == b.len(),
        forall|i: int|
            0 <= i < a.len() ==> (#[trigger] a[i]).tag@ == b[i].tag@ && a[i].size == b[i].size
                && a[i].offset == b[i].offset,
{
    if a.len() < b.len() {
        assert(section_reads(data, a.len() as int, b[a.len() as int]));
    }
    if b.len() < a.len() {
        assert(section_reads(data, b.len() as int, a[b.len() as int]));
    }
    assert forall|i: int| 0 <= i < a.len() implies (#[trigger] a[i]).tag@ == b[i].tag@ && a[i].size
        == b[i].size && a[i].offset == b[i].offset by {
        assert(section_reads(data, i, a[i]));
        assert(section_reads(data, i, b[i]));
    }
}

/// A number whose bytes were written lowest first is read back, whatever it is.
pub proof fn numbers_are_read_back(bytes: Seq<u8>, off: int, short: u16, long: u32)
    ensures
        bytes[off] == short % 0x100 && bytes[off + 1] == short / 0x100 ==> u16_le(bytes, off)
            == short,
        bytes[off] == long % 0x100 && bytes[off + 1] == long / 0x100 % 0x100 && bytes[off + 2]
            == long / 0x1_0000 % 0x100 && bytes[off + 3] == long / 0x100_0000 ==> u32_le(bytes, off)
            == long,
{
}

/// The text of a field is all that stands before its first zero, and all of the field where there
/// is none.
pub proof fn texts_end_at_the_first_zero(bytes: Seq<u8>)
    ensures
        until_zero(bytes).len() <= bytes.len(),
        until_zero(bytes) == bytes.take(until_zero(bytes).len() as int),
        !until_zero(bytes).contains(0),
        until_zero(bytes).len() < bytes.len() ==> bytes[until_zero(bytes).len() as int] == 0,
    decreases bytes.len(),
{
    let text = until_zero(bytes);
    if bytes.len() > 0 && bytes[0] != 0 {
        let rest = bytes.drop_first();
        texts_end_at_the_first_zero(rest);
        let n = until_zero(rest).len() as int;
        assert(text == seq![bytes[0]] + until_zero(rest));
        assert(text =~= bytes.take(n + 1));
        assert forall|i: int| 0 <= i < text.len() implies text[i] != 0 by {
            if i > 0 {
                assert(text[i] == until_zero(rest)[i - 1]);
                assert(until_zero(rest).contains(until_zero(rest)[i - 1]));
            }
        }
        if n + 1 < bytes.len() {
            assert(bytes[n + 1] == rest[n]);
        }
    } else {
        assert(bytes.take(0) =~= Seq::empty());
    }
}

/// An ASCII text that was written into a field of the header, with a zero behind it where there is
/// room for one, is read back: the product name, the vendor or the version.
pub proof fn header_texts_are_read_back(
    data: Seq<u8>,
    header: NuxDfuHeader,
    text: Seq<char>,
    off: int,
    len: int,
    name: Seq<u8>,
)
    requires
        header_valid(data),
        header_reads(data, header),
        ({
            ||| text == header.product_name@ && off == 20 && len == 256
            ||| text == header.vendor@ && off == 276 && len == 256
            ||| text == header.version@ && off == 532 && len == 16
        }),
        name.len() <= len,
        forall|i: int|
            0 <= i < name.len() ==> 1 <= (#[trigger] name[i]) < 0x80 && data[off + i] == name[i],
        name.len() < len ==> data[off + name.len()] == 0,
    ensures
        text.len() == name.len(),
        forall|i: int| 0 <= i < name.len() ==> (#[trigger] text[i]) as int == name[i],
{
    let field = data.subrange(off, off + len);
    let n = name.len() as int;
    assert(padded_text(text, data, off, len));
    assert forall|i: int| 0 <= i < n implies field[i] == name[i] && field[i] != 0 by {
        assert(field[i] == data[off + i]);
        assert(1 <= name[i] < 0x80 && data[off + i] == name[i]);
    }
    lemma_until_zero(field, n);
    assert(field.take(n) =~= name);
    lemma_ascii_text(name);
    assert(text == ascii_text(name));
}

/// A file is accepted exactly where it has at least 548 bytes, begins with `NUX DFU`, and gives
/// its own size behind that and one more byte.
pub proof fn files_are_accepted_exactly(data: Seq<u8>)
    ensures
        header_valid(data) <==> {
            &&& data.len() >= 548
            &&& data[0] == 'N' as int
            &&& data[1] == 'U' as int
            &&& data[2] == 'X' as int
            &&& data[3] == ' ' as int
            &&& data[4] == 'D' as int
            &&& data[5] == 'F' as int
            &&& data[6] == 'U' as int
            &&& u32_le(data, 8) == data.len()
        },
        forall|e: Error| #[trigger] header_refused(data, e) ==> !header_valid(data),
{
    if data.len() >= 548 {
        let found = data.subrange(0, 7);
        if found == magic_bytes() {
            assert(found[0] == 0x4e && found[1] == 0x55 && found[2] == 0x58 && found[3] == 0x20
                && found[4] == 0x44 && found[5] == 0x46 && found[6] == 0x55);
        }
        if data[0] == 0x4e && data[1] == 0x55 && data[2] == 0x58 && data[3] == 0x20 && data[4]
            == 0x44 && data[5] == 0x46 && data[6] == 0x55 {
            assert(found =~= magic_bytes());
        }
    }
}

/// Whether the twelve bytes of the table's place `i` lie in the file and begin with four bytes
/// that are zero or printable, and not all zero.
pub open spec fn entry_written(data: Seq<u8>, i: int) -> bool {
    let at = 548 + 12 * i;
    let tag = data.subrange(at, at + 4);
    &&& at + 12 <= data.len()
    &&& tag != seq![0u8, 0, 0, 0]
    &&& forall|j: int| 0 <= j < 4 ==> (#[trigger] tag[j]) == 0 || ' ' as int <= tag[j] <= '~' as int
}

proof fn lemma_entry_written(data: Seq<u8>, i: int)
    requires
        0 <= i,
    ensures
        entry_written(data, i) == section_present(data, i),
{
    let at = 548 + 12 * i;
    assert(section_slot(i) == at);
    let tag = data.subrange(at, at + 4);
    if at + 12 <= data.len() {
        if entry_written(data, i) {
            assert(exists|j: int| 0 <= j < 4 && section_tag(data, i)[j] != 0) by {
                if forall|j: int| 0 <= j < 4 ==> section_tag(data, i)[j] == 0 {
                    assert(section_tag(data, i)[0] == 0 && section_tag(data, i)[1] == 0
                        && section_tag(data, i)[2] == 0 && section_tag(data, i)[3] == 0);
                    assert(tag =~= seq![0u8, 0, 0, 0]);
                }
            }
            assert forall|j: int| 0 <= j < 4 implies tag_byte(
                #[trigger] section_tag(data, i)[j],
            ) by {
                assert(tag[j] == 0 || 32 <= tag[j] <= 126);
            }
        }
        if section_present(data, i) {
            let j = choose|j: int| 0 <= j < 4 && section_tag(data, i)[j] != 0;
            assert(tag[j] != 0);
            assert(seq![0u8, 0, 0, 0][j] == 0);
            assert forall|j: int| 0 <= j < 4 implies (#[trigger] tag[j]) == 0 || ' ' as int
                <= tag[j] <= '~' as int by {
                assert(tag_byte(section_tag(data, i)[j]));
            }
        }
    }
}

/// All the entries that were written into the table are read, as many as they are: each gives its
/// four characters, its size and its offset. They are refused only where one reaches past the end
/// of the file.
pub proof fn every_section_is_read(data: Seq<u8>, n: nat)
    requires
        forall|i: int| 0 <= i < n ==> #[trigger] entry_written(data, i),
        !entry_written(data, n as int),
    ensures
        forall|sections: Seq<SectionEntry>, i: int|
            #[trigger] sections_read(data, sections) && 0 <= i < n ==> {
                let section = #[trigger] sections[i];
                let at = 548 + 12 * i;
                &&& sections.len() == n
                &&& section.tag@.len() == 4
                &&& forall|j: int| 0 <= j < 4 ==> (#[trigger] section.tag@[j]) as int == data[at + j]
                &&& section.size == u32_le(data, at + 4)
                &&& section.offset == u32_le(data, at + 8)
            },
        forall|sections: Seq<SectionEntry>| #[trigger]
            sections_read(data, sections) ==> sections.len() == n,
        (exists|k: int, e: Error| #[trigger] section_refused(data, k, e)) ==> exists|i: int|
            0 <= i < n && (#[trigger] u32_le(data, 548 + 12 * i + 8)) + u32_le(
                data,
                548 + 12 * i + 4,
            ) > data.len(),
{
    lemma_entry_written(data, n as int);
    assert forall|sections: Seq<SectionEntry>| #[trigger]
        sections_read(data, sections) implies sections.len() == n by {
        let m = sections.len() as int;
        if m < n {
            assert(entry_written(data, m));
            lemma_entry_written(data, m);
        } else if n < m {
            assert(section_reads(data, n as int, sections[n as int]));
        }
    }
    assert forall|sections: Seq<SectionEntry>, i: int|
        #[trigger] sections_read(data, sections) && 0 <= i < n implies {
        let section = #[trigger] sections[i];
        let at = 548 + 12 * i;
        &&& sections.len() == n
        &&& section.tag@.len() == 4
        &&& forall|j: int| 0 <= j < 4 ==> (#[trigger] section.tag@[j]) as int == data[at + j]
        &&& section.size == u32_le(data, at + 4)
        &&& section.offset == u32_le(data, at + 8)
    } by {
        assert(sections.len() == n);
        assert(section_reads(data, i, sections[i]));
        assert(entry_written(data, i));
        assert(section_slot(i) == 548 + 12 * i);
        assert forall|j: int| 0 <= j < 4 implies (#[trigger] sections[i].tag@[j]) as int == data[548
            + 12 * i + j] by {
            assert(section_tag(data, i)[j] == data[548 + 12 * i + j]);
        }
    }
    if exists|k: int, e: Error| #[trigger] section_refused(data, k, e) {
        let (k, e) = choose|k: int, e: Error| #[trigger] section_refused(data, k, e);
        assert(section_slot(k) == 548 + 12 * k);
        assert(section_present(data, k));
        assert(k < n) by {
            if k >= n {
                assert(section_present(data, n as int));
            }
        }
        assert(u32_le(data, 548 + 12 * k + 8) + u32_le(data, 548 + 12 * k + 4) > data.len());
    }
}

/// The numbers of the header stand at the eighth byte, and from the ninth, the thirteenth and the
/// seventeenth on.
pub proof fn header_numbers_stand_at_their_places(data: Seq<u8>, header: NuxDfuHeader, i: int)
    requires
        header_valid(data),
        header_reads(data, header),
        0 <= i < 7,
    ensures
        header.magic[i] == data[i],
        header.version_byte == data[7],
        header.total_size == data.len(),
        header.unknown_0c == u32_le(data, 12),
        header.unknown_10 == u32_le(data, 16),
{
    assert(header.magic@[i] == data.subrange(0, 7)[i]);
}

} // verus!
