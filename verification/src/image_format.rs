//! The pictures in the clean BINA section: a header, a palette of RGB565 colours, and a stream
//! of words that each give a palette index and a run of pixels.

use vstd::arithmetic::power2::{lemma2_to64, lemma_pow2_pos, lemma_pow2_strictly_increases, pow2};
use vstd::prelude::*;

use crate::container::{read_u16_le, read_u32_le, u16_le, u32_le};
use crate::error::Error;
use crate::raster::{Raster, RgbImage};

verus! {

/// The size of a picture's header.
pub const IMAGE_HEADER_SIZE: usize = 12;

/// The header of a picture.
#[derive(Debug, Clone, Copy, PartialEq, Eq)]
pub struct ImageRecordHeader {
    pub bpp: u16,
    pub width: u16,
    pub height: u16,
    pub palette_entries: u16,
    pub rle_words: u32,
}

/// A picture found at some place of the clean section.
#[derive(Debug, Clone, Copy, PartialEq, Eq)]
pub struct ImageRecord {
    pub offset: usize,
    pub header: ImageRecordHeader,
}

impl ImageRecordHeader {
    /// The bytes of header, palette and runs together.
    pub open spec fn size(self) -> int {
        IMAGE_HEADER_SIZE + self.palette_entries * 2 + self.rle_words * 2
    }

    /// The number of pixels.
    pub open spec fn pixels(self) -> int {
        self.width * self.height
    }
}

impl ImageRecord {
    /// Where the palette begins.
    pub open spec fn palette_offset(self) -> int {
        self.offset + IMAGE_HEADER_SIZE
    }

    /// Where the runs begin.
    pub open spec fn rle_offset(self) -> int {
        self.palette_offset() + self.header.palette_entries * 2
    }

    /// Where the picture ends.
    pub fn end(&self) -> (r: usize)
        requires
            self.offset + self.header.size() <= usize::MAX,
        ensures
            r == self.offset + self.header.size(),
    {
        self.offset + self.record_size_bytes()
    }

    /// The bytes that the picture takes.
    pub fn record_size_bytes(&self) -> (r: usize)
        requires
            self.header.size() <= usize::MAX,
        ensures
            r == self.header.size(),
    {
        IMAGE_HEADER_SIZE + self.header.palette_entries as usize * 2 + self.header.rle_words as usize
            * 2
    }

    /// The number of pixels.
    pub fn area(&self) -> (r: usize)
        ensures
            r == self.header.pixels(),
    {
        proof {
            lemma_u16_product(self.header.width, self.header.height);
        }
        self.header.width as usize * self.header.height as usize
    }

    /// The dimensions of the upright image: the stored picture is mirrored and turned by 90
    /// degrees.
    pub fn output_dimensions(&self) -> (r: (u16, u16))
        ensures
            r == (self.header.height, self.header.width),
    {
        (self.header.height, self.header.width)
    }
}

pub(crate) proof fn lemma_u16_product(a: u16, b: u16)
    ensures
        0 <= a * b <= 0xfffe_0001,
{
    assert(0 <= a * b <= 0xfffe_0001) by (nonlinear_arith)
        requires
            0 <= a <= 0xffff,
            0 <= b <= 0xffff,
    ;
}

/// The 24-bit colour of a 5-6-5 bit colour: each part scaled to 0 to 255, rounded down.
pub open spec fn rgb888(c: u16) -> [u8; 3] {
    [
        (c as int / 0x800 * 255 / 31) as u8,
        (c as int / 0x20 % 0x40 * 255 / 63) as u8,
        (c as int % 0x20 * 255 / 31) as u8,
    ]
}

/// Expands a 5-6-5 bit colour.
pub fn rgb565_to_rgb888(c: u16) -> (r: [u8; 3])
    ensures
        r == rgb888(c),
{
    proof {
        assert((c >> 11) & 0x1f == c / 0x800) by (bit_vector);
        assert((c >> 5) & 0x3f == c / 0x20 % 0x40) by (bit_vector);
        assert(c & 0x1f == c % 0x20) by (bit_vector);
    }
    let r5 = ((c >> 11) & 0x1f) as u32;
    let g6 = ((c >> 5) & 0x3f) as u32;
    let b5 = (c & 0x1f) as u32;
    let r = [((r5 * 255) / 31) as u8, ((g6 * 255) / 63) as u8, ((b5 * 255) / 31) as u8];
    assert(r@ =~= rgb888(c)@);
    r
}

/// The palette index in a word: its low `bpp` bits.
pub open spec fn word_index(word: u16, bpp: nat) -> nat {
    word as nat % pow2(bpp)
}

/// The run length in a word: one more than its high bits.
pub open spec fn word_run(word: u16, bpp: nat) -> nat {
    word as nat / pow2(bpp) + 1
}

pub(crate) proof fn lemma_pow2_16(n: nat)
    requires
        n < 16,
    ensures
        1 <= pow2(n) <= 0x8000,
        n <= 8 ==> pow2(n) <= 0x100,
{
    lemma2_to64();
    lemma_pow2_pos(n);
    if n < 15 {
        lemma_pow2_strictly_increases(n, 15);
    }
    if n < 8 {
        lemma_pow2_strictly_increases(n, 8);
    }
}

proof fn lemma_word_bits(word: u16, bpp: u16)
    requires
        bpp < 16,
    ensures
        (1u16 << bpp) == pow2(bpp as nat),
        1 <= pow2(bpp as nat) <= 0x8000,
        word & ((1u16 << bpp) - 1) as u16 == word_index(word, bpp as nat),
        (word >> bpp) + 1 == word_run(word, bpp as nat),
        word_run(word, bpp as nat) <= 0x1_0000,
{
    lemma_pow2_16(bpp as nat);
    vstd::bits::lemma_u16_shl_is_mul(1, bpp);
    vstd::bits::lemma_u16_shr_is_div(word, bpp);
    vstd::bits::lemma_u16_low_bits_mask_is_mod(word, bpp as nat);
}

/// Splits a word into palette index and run length.
pub fn decode_rle_word(word: u16, bpp: u16) -> (r: (usize, usize))
    requires
        bpp < 16,
    ensures
        r.0 == word_index(word, bpp as nat),
        r.1 == word_run(word, bpp as nat),
{
    proof {
        lemma_word_bits(word, bpp);
    }
    let mask = (1u16 << bpp) - 1;
    let palette_index = (word & mask) as usize;
    let run_length = ((word >> bpp) as usize) + 1;
    (palette_index, run_length)
}

/// The number of pixels that the runs of `words` cover.
pub open spec fn runs_total(words: Seq<u16>, bpp: nat) -> nat
    decreases words.len(),
{
    if words.len() == 0 {
        0
    } else {
        runs_total(words.drop_last(), bpp) + word_run(words.last(), bpp)
    }
}

/// The palette index of each pixel that `words` cover, in order.
pub open spec fn expand(words: Seq<u16>, bpp: nat) -> Seq<nat>
    decreases words.len(),
{
    if words.len() == 0 {
        Seq::empty()
    } else {
        expand(words.drop_last(), bpp) + Seq::new(
            word_run(words.last(), bpp),
            |i: int| word_index(words.last(), bpp),
        )
    }
}

/// The header at `off`.
pub open spec fn header_at(buf: Seq<u8>, off: int) -> ImageRecordHeader {
    ImageRecordHeader {
        bpp: u16_le(buf, off),
        width: u16_le(buf, off + 2),
        height: u16_le(buf, off + 4),
        palette_entries: u16_le(buf, off + 6),
        rle_words: u32_le(buf, off + 8),
    }
}

/// Whether colour depth and palette size go together: 1 to 8 bits per pixel, and a palette that
/// is not empty and not larger than these bits can address.
pub open spec fn depth_valid(bpp: u16, palette_entries: u16) -> bool {
    &&& 1 <= bpp <= 8
    &&& 1 <= palette_entries <= pow2(bpp as nat)
}

/// Whether a header can be that of a picture, as far as it can be told from the header alone.
pub open spec fn header_plausible(h: ImageRecordHeader) -> bool {
    &&& depth_valid(h.bpp, h.palette_entries)
    &&& 1 <= h.width <= 800
    &&& 1 <= h.height <= 1000
    &&& 1 <= h.rle_words <= 200_000
}

/// The words of the picture `rec` that lie inside `buf`: all of them, or as many as there is
/// room for.
pub open spec fn words_at(buf: Seq<u8>, rec: ImageRecord) -> Seq<u16> {
    let room = if rec.rle_offset() <= buf.len() {
        (buf.len() - rec.rle_offset()) / 2
    } else {
        0
    };
    Seq::new(
        if room < rec.header.rle_words {
            room as nat
        } else {
            rec.header.rle_words as nat
        },
        |i: int| u16_le(buf, rec.rle_offset() + i * 2),
    )
}

/// Whether the runs of `words` use only the palette and cover the picture exactly.
pub open spec fn runs_valid(words: Seq<u16>, h: ImageRecordHeader) -> bool {
    &&& forall|i: int|
        0 <= i < words.len() ==> word_index(#[trigger] words[i], h.bpp as nat) < h.palette_entries
    &&& runs_total(words, h.bpp as nat) == h.pixels()
}

/// Whether a picture begins at `off`.
pub open spec fn record_valid(buf: Seq<u8>, off: int) -> bool {
    let h = header_at(buf, off);
    &&& off + IMAGE_HEADER_SIZE <= buf.len()
    &&& header_plausible(h)
    &&& off + h.size() <= buf.len()
    &&& runs_valid(words_at(buf, ImageRecord { offset: off as usize, header: h }), h)
}

fn parse_header(buf: &[u8], off: usize) -> (r: Result<ImageRecordHeader, Error>)
    requires
        off + IMAGE_HEADER_SIZE <= usize::MAX,
    ensures
        match r {
            Ok(h) => off + IMAGE_HEADER_SIZE <= buf@.len() && h == header_at(buf@, off as int),
            Err(e) => off + IMAGE_HEADER_SIZE > buf@.len() && e == if off + 8 > buf@.len() {
                Error::U16OutOfBounds
            } else {
                Error::U32OutOfBounds
            },
        },
{
    Ok(
        ImageRecordHeader {
            bpp: read_u16_le(buf, off)?,
            width: read_u16_le(buf, off + 2)?,
            height: read_u16_le(buf, off + 4)?,
            palette_entries: read_u16_le(buf, off + 6)?,
            rle_words: read_u32_le(buf, off + 8)?,
        },
    )
}

/// What a colour depth and a palette size that do not go together are refused with.
pub open spec fn depth_failure(bpp: u16, palette_entries: u16) -> Option<Error> {
    if !(1 <= bpp <= 8) {
        Some(Error::InvalidBpp { bpp })
    } else if !depth_valid(bpp, palette_entries) {
        Some(Error::InvalidPaletteEntries { bpp, palette_entries })
    } else {
        None
    }
}

/// Checks that colour depth and palette size go together.
pub fn validate_bpp_and_palette(bpp: u16, palette_entries: u16) -> (r: Result<(), Error>)
    ensures
        match r {
            Ok(()) => depth_valid(bpp, palette_entries),
            Err(e) => depth_failure(bpp, palette_entries) == Some(e),
        },
{
    if bpp < 1 || bpp > 8 {
        return Err(Error::InvalidBpp { bpp });
    }
    proof {
        lemma_word_bits(0, bpp);
    }
    let max_palette = 1u16 << bpp;
    if palette_entries < 1 || palette_entries > max_palette {
        return Err(Error::InvalidPaletteEntries { bpp, palette_entries });
    }
    Ok(())
}

fn header_bounds_ok(header: &ImageRecordHeader, buf_len: usize, off: usize) -> (r: bool)
    ensures
        r == (header_plausible(*header) && off + header.size() <= buf_len),
{
    if validate_bpp_and_palette(header.bpp, header.palette_entries).is_err() {
        return false;
    }
    if header.width < 1 || header.width > 800 || header.height < 1 || header.height > 1000 {
        return false;
    }
    if header.rle_words == 0 || header.rle_words > 200_000 {
        return false;
    }
    proof {
        lemma_pow2_16(header.bpp as nat);
    }
    let size = IMAGE_HEADER_SIZE + header.palette_entries as usize * 2 + header.rle_words as usize
        * 2;
    off <= buf_len && size <= buf_len - off
}

pub(crate) proof fn lemma_runs_total_grows(words: Seq<u16>, bpp: nat, k: int)
    requires
        0 <= k <= words.len(),
    ensures
        runs_total(words.take(k), bpp) <= runs_total(words, bpp),
    decreases words.len(),
{
    if k < words.len() {
        lemma_runs_total_grows(words.drop_last(), bpp, k);
        assert(words.drop_last().take(k) =~= words.take(k));
    } else {
        assert(words.take(k) =~= words);
    }
}

pub(crate) proof fn lemma_take_next(words: Seq<u16>, bpp: nat, k: int)
    requires
        0 <= k < words.len(),
    ensures
        words.take(k + 1).drop_last() == words.take(k),
        words.take(k + 1).last() == words[k],
        runs_total(words.take(k + 1), bpp) == runs_total(words.take(k), bpp) + word_run(
            words[k],
            bpp,
        ),
{
    assert(words.take(k + 1).drop_last() =~= words.take(k));
}

fn validate_rle_stream(buf: &[u8], record: &ImageRecord) -> (r: bool)
    requires
        words_at(buf@, *record).len() > 0 ==> record.header.bpp < 16,
    ensures
        r == (words_at(buf@, *record).len() == record.header.rle_words && runs_valid(
            words_at(buf@, *record),
            record.header,
        )),
{
    let header = record.header;
    let ghost words = words_at(buf@, *record);
    let ghost bpp = header.bpp as nat;
    let buf_len = buf.len();
    proof {
        lemma_u16_product(header.width, header.height);
    }
    let expected_pixels = header.width as u64 * header.height as u64;
    if header.rle_words == 0 {
        return expected_pixels == 0;
    }
    let end = record.offset as u128 + IMAGE_HEADER_SIZE as u128 + header.palette_entries as u128
        * 2 + header.rle_words as u128 * 2;
    if end > buf_len as u128 {
        return false;
    }
    assert(words.len() == header.rle_words);
    let palette_offset = record.offset + IMAGE_HEADER_SIZE;
    let rle_offset = palette_offset + header.palette_entries as usize * 2;
    let mut pixel_total: u64 = 0;
    let mut i: usize = 0;
    assert(words.take(0) =~= Seq::empty());
    while i < header.rle_words as usize
        invariant
            header == record.header,
            header.bpp < 16,
            bpp == header.bpp as nat,
            i <= header.rle_words,
            words == words_at(buf@, *record),
            words.len() == header.rle_words,
            rle_offset == record.rle_offset(),
            rle_offset + header.rle_words * 2 <= buf@.len(),
            buf@.len() <= usize::MAX,
            expected_pixels == header.pixels(),
            pixel_total == runs_total(words.take(i as int), bpp),
            pixel_total <= expected_pixels <= 0xfffe_0001,
            forall|k: int|
                0 <= k < i ==> word_index(#[trigger] words[k], bpp) < header.palette_entries,
        decreases header.rle_words - i,
    {
        let word = match read_u16_le(buf, rle_offset + i * 2) {
            Ok(w) => w,
            Err(_) => return false,
        };
        proof {
            assert(word == words[i as int]);
            lemma_take_next(words, bpp, i as int);
            lemma_runs_total_grows(words, bpp, i + 1);
            lemma_word_bits(word, header.bpp);
        }
        let (palette_index, run_length) = decode_rle_word(word, header.bpp);
        if palette_index >= header.palette_entries as usize {
            return false;
        }
        pixel_total = pixel_total + run_length as u64;
        if pixel_total > expected_pixels {
            return false;
        }
        i += 1;
    }
    assert(words.take(i as int) =~= words);
    pixel_total == expected_pixels
}

/// Checks whether a picture begins at `off`.
pub fn validate_image_record(buf: &[u8], off: usize) -> (r: Option<ImageRecord>)
    ensures
        r == if record_valid(buf@, off as int) {
            Some(ImageRecord { offset: off, header: header_at(buf@, off as int) })
        } else {
            None
        },
{
    if off > buf.len() || buf.len() - off < IMAGE_HEADER_SIZE {
        return None;
    }
    let header = match parse_header(buf, off) {
        Ok(header) => header,
        Err(_) => return None,
    };
    if !header_bounds_ok(&header, buf.len(), off) {
        return None;
    }
    let record = ImageRecord { offset: off, header };
    if !validate_rle_stream(buf, &record) {
        return None;
    }
    Some(record)
}

pub(crate) proof fn lemma_expand_len(words: Seq<u16>, bpp: nat)
    ensures
        expand(words, bpp).len() == runs_total(words, bpp),
    decreases words.len(),
{
    if words.len() > 0 {
        lemma_expand_len(words.drop_last(), bpp);
    }
}

pub(crate) proof fn lemma_expand_at(words: Seq<u16>, bpp: nat, k: int, t: int)
    requires
        0 <= k < words.len(),
        0 <= t < word_run(words[k], bpp),
    ensures
        runs_total(words.take(k), bpp) + t < runs_total(words, bpp),
        expand(words, bpp)[runs_total(words.take(k), bpp) + t] == word_index(words[k], bpp),
    decreases words.len(),
{
    let shorter = words.drop_last();
    lemma_expand_len(shorter, bpp);
    if k < words.len() - 1 {
        lemma_expand_at(shorter, bpp, k, t);
        assert(shorter.take(k) =~= words.take(k));
    } else {
        assert(words.take(k) =~= shorter);
    }
}

/// The colour of entry `k` of the palette of `rec`.
pub open spec fn palette_color(buf: Seq<u8>, rec: ImageRecord, k: nat) -> [u8; 3] {
    rgb888(u16_le(buf, rec.palette_offset() + k * 2))
}

/// The colours of the pixels that the runs of `rec` cover, in the order in which they are
/// stored: row by row.
pub open spec fn stored_pixels(buf: Seq<u8>, rec: ImageRecord) -> Seq<[u8; 3]> {
    let indices = expand(words_at(buf, rec), rec.header.bpp as nat);
    Seq::new(indices.len(), |s: int| palette_color(buf, rec, indices[s]))
}

/// `image` shows the stored picture of `width` columns and `height` rows upright: what is
/// stored in column `x` of row `y` stands in row `x` of column `y`.
pub open spec fn shows(image: Raster, pixels: Seq<[u8; 3]>, width: nat, height: nat) -> bool {
    &&& image.width == height
    &&& image.height == width
    &&& image.bytes.len() == 3 * width * height
    &&& forall|x: int, y: int|
        #![trigger image.pixel(y, x)]
        0 <= x < width && 0 <= y < height ==> image.pixel(y, x) == pixels[y * width + x]
}

/// The failure that decoding `rec` ends with, if any. The words are read one after another, so
/// runs past the last pixel are noticed before the end of the bytes is.
pub open spec fn decode_failure(buf: Seq<u8>, rec: ImageRecord) -> Option<Error> {
    let words = words_at(buf, rec);
    let total = runs_total(words, rec.header.bpp as nat);
    if rec.header.palette_entries > 0 && rec.rle_offset() > buf.len() {
        Some(Error::U16OutOfBounds)
    } else if total > rec.header.pixels() {
        Some(Error::TooManyPixels)
    } else if words.len() < rec.header.rle_words {
        Some(Error::U16OutOfBounds)
    } else if total < rec.header.pixels() {
        Some(
            Error::PixelCountMismatch {
                pixels: total as usize,
                expected_pixels: rec.header.pixels() as usize,
            },
        )
    } else {
        None
    }
}

/// Whether `rec` can be decoded at all: its places and the decoded bytes can be counted, and
/// every word that is come to before a failure points into the palette.
pub open spec fn decodable(buf: Seq<u8>, rec: ImageRecord) -> bool {
    let words = words_at(buf, rec);
    let bpp = rec.header.bpp as nat;
    &&& rec.rle_offset() <= usize::MAX
    &&& 3 * rec.header.pixels() <= usize::MAX
    &&& forall|i: int|
        0 <= i < words.len() && runs_total(words.take(i), bpp) <= rec.header.pixels() ==> bpp < 16
            && word_index(#[trigger] words[i], bpp) < rec.header.palette_entries
}

/// Where the pixel at `s` of a stored picture stands among the pixels of the upright image.
spec fn upright_index(s: int, width: int, height: int) -> int {
    s % width * height + s / width
}

proof fn lemma_upright_index(s: int, width: int, height: int)
    requires
        0 <= s < width * height,
        0 < width,
    ensures
        0 < height,
        0 <= s % width < width,
        0 <= s / width < height,
        s == s / width * width + s % width,
        0 <= upright_index(s, width, height) < width * height,
        upright_index(s, width, height) / height == s % width,
        upright_index(s, width, height) % height == s / width,
{
    let x = s % width;
    let y = s / width;
    vstd::arithmetic::div_mod::lemma_fundamental_div_mod(s, width);
    assert(0 < height) by (nonlinear_arith)
        requires
            0 <= s < width * height,
            0 < width,
    ;
    assert(y < height) by (nonlinear_arith)
        requires
            s == width * y + x,
            0 <= x,
            s < width * height,
            0 < width,
    ;
    assert(0 <= y) by (nonlinear_arith)
        requires
            s == width * y + x,
            x < width,
            0 <= s,
            0 < width,
    ;
    assert(width * y == y * width) by (nonlinear_arith);
    assert(0 <= x * height + y < width * height) by (nonlinear_arith)
        requires
            0 <= x < width,
            0 <= y < height,
    ;
    vstd::arithmetic::div_mod::lemma_fundamental_div_mod_converse(x * height + y, height, x, y);
}

pub(crate) proof fn lemma_stored_index(x: int, y: int, width: int, height: int)
    requires
        0 <= x < width,
        0 <= y < height,
    ensures
        0 <= y * width + x < width * height,
        (y * width + x) % width == x,
        (y * width + x) / width == y,
{
    vstd::arithmetic::div_mod::lemma_fundamental_div_mod_converse(y * width + x, width, y, x);
    assert(0 <= y * width + x < width * height) by (nonlinear_arith)
        requires
            0 <= x < width,
            0 <= y < height,
    ;
}

/// The pixel at place `p` of `bytes`.
spec fn pixel_bytes(bytes: Seq<u8>, p: int) -> Seq<u8> {
    seq![bytes[3 * p], bytes[3 * p + 1], bytes[3 * p + 2]]
}

/// Decodes a picture into an upright image.
pub fn decode_image(clean_bina: &[u8], rec: &ImageRecord) -> (r: Result<RgbImage, Error>)
    requires
        decodable(clean_bina@, *rec),
    ensures
        match r {
            Ok(image) => decode_failure(clean_bina@, *rec) is None && shows(
                image@,
                stored_pixels(clean_bina@, *rec),
                rec.header.width as nat,
                rec.header.height as nat,
            ),
            Err(e) => decode_failure(clean_bina@, *rec) == Some(e),
        },
{
    let header = rec.header;
    let ghost words = words_at(clean_bina@, *rec);
    let ghost bpp = header.bpp as nat;
    let ghost pixels = stored_pixels(clean_bina@, *rec);
    let ghost w = header.width as int;
    let ghost h = header.height as int;
    let palette_offset = rec.offset + IMAGE_HEADER_SIZE;
    let rle_offset = palette_offset + header.palette_entries as usize * 2;
    let buf_len = clean_bina.len();

    let src_w = header.width as usize;
    let src_h = header.height as usize;
    let out_w = src_h;
    let out_h = src_w;

    let mut palette: Vec<[u8; 3]> = Vec::new();
    let mut k: usize = 0;
    while k < header.palette_entries as usize
        invariant
            header == rec.header,
            palette_offset == rec.palette_offset(),
            palette_offset + header.palette_entries * 2 <= usize::MAX,
            k <= header.palette_entries,
            palette@.len() == k,
            k > 0 ==> palette_offset + k * 2 <= clean_bina@.len(),
            forall|j: int|
                0 <= j < k ==> #[trigger] palette@[j] == palette_color(clean_bina@, *rec, j as nat),
        decreases header.palette_entries - k,
    {
        let c = read_u16_le(clean_bina, palette_offset + k * 2)?;
        palette.push(rgb565_to_rgb888(c));
        k += 1;
    }

    proof {
        lemma_u16_product(header.width, header.height);
        lemma_expand_len(words, bpp);
    }
    let expected_pixels = src_w * src_h;
    let mut rgb: Vec<u8> = vec![0u8; expected_pixels * 3];
    let mut src_idx: usize = 0;
    let mut i: usize = 0;
    assert(words.take(0) =~= Seq::empty());
    while i < header.rle_words as usize
        invariant
            header == rec.header,
            decodable(clean_bina@, *rec),
            header.palette_entries > 0 ==> rec.rle_offset() <= clean_bina@.len(),
            bpp == header.bpp as nat,
            words == words_at(clean_bina@, *rec),
            pixels == stored_pixels(clean_bina@, *rec),
            pixels.len() == runs_total(words, bpp),
            rle_offset == rec.rle_offset(),
            clean_bina@.len() <= usize::MAX,
            w == src_w == header.width,
            h == out_w == header.height,
            expected_pixels == w * h == header.pixels(),
            expected_pixels * 3 <= usize::MAX,
            palette@.len() == header.palette_entries,
            forall|j: int|
                0 <= j < palette@.len() ==> #[trigger] palette@[j] == palette_color(
                    clean_bina@,
                    *rec,
                    j as nat,
                ),
            i <= words.len(),
            src_idx == runs_total(words.take(i as int), bpp),
            src_idx <= expected_pixels,
            rgb@.len() == expected_pixels * 3,
            forall|s: int|
                0 <= s < src_idx ==> pixel_bytes(rgb@, #[trigger] upright_index(s, w, h))
                    == pixels[s]@,
        decreases header.rle_words - i,
    {
        proof {
            if i == words.len() {
                assert(words.take(i as int) =~= words);
            }
        }
        let word = read_u16_le(clean_bina, rle_offset + i * 2)?;
        assert(word == words[i as int]);
        proof {
            lemma_word_bits(word, header.bpp);
            lemma_take_next(words, bpp, i as int);
            lemma_runs_total_grows(words, bpp, i + 1);
        }
        let (idx, run) = decode_rle_word(word, header.bpp);
        let color = palette[idx];
        let ghost start = src_idx as int;
        let mut t: usize = 0;
        while t < run
            invariant
                i < words.len(),
                word == words[i as int],
                bpp == header.bpp as nat,
                header == rec.header,
                words == words_at(clean_bina@, *rec),
                pixels == stored_pixels(clean_bina@, *rec),
                pixels.len() == runs_total(words, bpp),
                header.palette_entries > 0 ==> rec.rle_offset() <= clean_bina@.len(),
                header.palette_entries > 0,
                w == src_w == header.width,
                h == out_w == header.height,
                expected_pixels == w * h == header.pixels(),
                expected_pixels * 3 <= usize::MAX,
                idx == word_index(word, bpp),
                run == word_run(word, bpp),
                color == palette_color(clean_bina@, *rec, idx as nat),
                t <= run,
                start == runs_total(words.take(i as int), bpp),
                runs_total(words, bpp) >= start + run,
                src_idx == start + t,
                src_idx <= expected_pixels,
                rgb@.len() == expected_pixels * 3,
                forall|s: int|
                    0 <= s < src_idx ==> pixel_bytes(rgb@, #[trigger] upright_index(s, w, h))
                        == pixels[s]@,
            decreases run - t,
        {
            if src_idx >= expected_pixels {
                return Err(Error::TooManyPixels);
            }
            proof {
                assert(w > 0) by (nonlinear_arith)
                    requires
                        w * h > 0,
                        w >= 0,
                        h >= 0,
                ;
                lemma_upright_index(src_idx as int, w, h);
                lemma_expand_at(words, bpp, i as int, t as int);
                assert(pixels[src_idx as int] == color);
            }
            let ghost before = rgb@;
            let ghost here = src_idx as int;
            let x = src_idx % src_w;
            let y = src_idx / src_w;
            assert(x * out_w <= x * out_w + y);
            let place = x * out_w + y;
            assert(place == upright_index(here, w, h));
            src_idx += 1;

            let out_off = place * 3;
            rgb.set(out_off, color[0]);
            rgb.set(out_off + 1, color[1]);
            rgb.set(out_off + 2, color[2]);
            proof {
                assert forall|s: int| 0 <= s < src_idx implies pixel_bytes(
                    rgb@,
                    #[trigger] upright_index(s, w, h),
                ) == pixels[s]@ by {
                    lemma_upright_index(s, w, h);
                    let q = upright_index(s, w, h);
                    if s < here {
                        assert(q != place);
                        assert(pixel_bytes(rgb@, q) =~= pixel_bytes(before, q));
                    } else {
                        assert(pixel_bytes(rgb@, q) =~= color@);
                    }
                }
            }
            t += 1;
        }
        i += 1;
    }
    assert(words.take(i as int) =~= words);
    if src_idx != expected_pixels {
        return Err(Error::PixelCountMismatch { pixels: src_idx, expected_pixels });
    }
    let ghost bytes = rgb@;
    assert(3 * out_w * out_h == bytes.len()) by (nonlinear_arith)
        requires
            bytes.len() == src_w * src_h * 3,
            out_w == src_h,
            out_h == src_w,
    ;
    match RgbImage::from_raw(out_w as u32, out_h as u32, rgb) {
        Some(image) => {
            proof {
                assert forall|x: int, y: int|
                    #![trigger image@.pixel(y, x)]
                    0 <= x < w && 0 <= y < h implies image@.pixel(y, x) == pixels[y * w + x] by {
                    lemma_stored_index(x, y, w, h);
                    let s = y * w + x;
                    assert(upright_index(s, w, h) == x * h + y);
                    assert(pixel_bytes(bytes, x * h + y) == pixels[s]@);
                    assert(image@.pixel(y, x)@ =~= pixels[s]@);
                }
                assert(3 * w * h == bytes.len()) by (nonlinear_arith)
                    requires
                        bytes.len() == w * h * 3,
                ;
            }
            Ok(image)
        },
        None => Err(Error::InvalidImageBuffer),
    }
}

/// Every picture that is recognised can be decoded, and decodes without a failure.
pub proof fn recognised_pictures_decode(buf: Seq<u8>, off: usize)
    requires
        buf.len() <= usize::MAX,
        record_valid(buf, off as int),
    ensures
        ({
            let rec = ImageRecord { offset: off, header: header_at(buf, off as int) };
            decodable(buf, rec) && decode_failure(buf, rec) is None
        }),
{
    let rec = ImageRecord { offset: off, header: header_at(buf, off as int) };
    assert(3 * rec.header.pixels() <= 2_400_000) by (nonlinear_arith)
        requires
            rec.header.pixels() == rec.header.width * rec.header.height,
            0 <= rec.header.width <= 800,
            0 <= rec.header.height <= 1000,
    ;
}

/// Each part of an expanded colour is the largest number that is not above its share of 255.
pub proof fn expanded_colours_are_rounded_down(red: u16, green: u16, blue: u16)
    requires
        red < 32,
        green < 64,
        blue < 32,
    ensures
        ({
            let c = rgb888((red * 0x800 + green * 0x20 + blue) as u16);
            &&& 31 * c[0] <= 255 * red < 31 * (c[0] + 1)
            &&& 63 * c[1] <= 255 * green < 63 * (c[1] + 1)
            &&& 31 * c[2] <= 255 * blue < 31 * (c[2] + 1)
        }),
{
    let c = (red * 0x800 + green * 0x20 + blue) as u16;
    assert(c as int / 0x800 == red && c as int / 0x20 % 0x40 == green && c as int % 0x20 == blue);
}

/// A word is made of its index below and its run, less one, above.
pub proof fn words_are_index_and_run(word: u16, bpp: nat)
    requires
        bpp < 16,
    ensures
        word == (word_run(word, bpp) - 1) * pow2(bpp) + word_index(word, bpp),
        word_index(word, bpp) < pow2(bpp),
{
    lemma_pow2_pos(bpp);
    let (w, p) = (word as int, pow2(bpp) as int);
    vstd::arithmetic::div_mod::lemma_fundamental_div_mod(w, p);
    vstd::arithmetic::div_mod::lemma_mod_bound(w, p);
    assert(p * (w / p) == (w / p) * p) by (nonlinear_arith);
}

/// `starts` tell where in the picture the run of each word begins, and where the last one ends.
pub open spec fn runs_begin(words: Seq<u16>, bpp: nat, starts: Seq<int>) -> bool {
    &&& starts.len() == words.len() + 1
    &&& starts[0] == 0
    &&& forall|i: int|
        0 <= i < words.len() ==> #[trigger] starts[i + 1] == starts[i] + words[i] as int / (pow2(
            bpp,
        ) as int) + 1
}

proof fn lemma_fewer_starts(words: Seq<u16>, bpp: nat, starts: Seq<int>)
    requires
        runs_begin(words, bpp, starts),
        words.len() > 0,
    ensures
        runs_begin(words.drop_last(), bpp, starts.drop_last()),
        starts[words.len() as int] == starts[words.len() - 1] + word_run(words.last(), bpp),
{
    let n = words.len() as int;
    let shorter = words.drop_last();
    let fewer = starts.drop_last();
    lemma_pow2_pos(bpp);
    assert(starts[n - 1 + 1] == starts[n - 1] + words[n - 1] as int / (pow2(bpp) as int) + 1);
    assert forall|i: int| 0 <= i < shorter.len() implies #[trigger] fewer[i + 1] == fewer[i]
        + shorter[i] as int / (pow2(bpp) as int) + 1 by {
        assert(starts[i + 1] == starts[i] + words[i] as int / (pow2(bpp) as int) + 1);
    }
}

/// The runs of the words follow one another: together they cover as many pixels as there are up
/// to the end of the last one.
pub proof fn runs_cover_the_picture(words: Seq<u16>, bpp: nat, starts: Seq<int>)
    requires
        runs_begin(words, bpp, starts),
    ensures
        runs_total(words, bpp) == starts[words.len() as int],
        expand(words, bpp).len() == starts[words.len() as int],
    decreases words.len(),
{
    if words.len() > 0 {
        lemma_fewer_starts(words, bpp, starts);
        runs_cover_the_picture(words.drop_last(), bpp, starts.drop_last());
    }
}

/// A run covers its own pixels with the index of its word.
pub proof fn runs_cover_their_pixels(words: Seq<u16>, bpp: nat, starts: Seq<int>, i: int, s: int)
    requires
        runs_begin(words, bpp, starts),
        0 <= i < words.len(),
        starts[i] <= s < starts[i + 1],
    ensures
        0 <= s < expand(words, bpp).len(),
        expand(words, bpp)[s] == words[i] as int % (pow2(bpp) as int),
    decreases words.len(),
{
    let n = words.len() as int;
    let shorter = words.drop_last();
    let fewer = starts.drop_last();
    lemma_pow2_pos(bpp);
    lemma_fewer_starts(words, bpp, starts);
    runs_cover_the_picture(shorter, bpp, fewer);
    runs_cover_the_picture(words, bpp, starts);
    lemma_starts_rise(words, bpp, starts, 0, i);
    if i < n - 1 {
        lemma_starts_rise(words, bpp, starts, i + 1, n - 1);
        runs_cover_their_pixels(shorter, bpp, fewer, i, s);
        assert(expand(words, bpp)[s] == expand(shorter, bpp)[s]);
    } else {
        assert(expand(words, bpp)[s] == word_index(words.last(), bpp));
    }
}

proof fn lemma_starts_rise(words: Seq<u16>, bpp: nat, starts: Seq<int>, i: int, j: int)
    requires
        runs_begin(words, bpp, starts),
        0 <= i <= j <= words.len(),
    ensures
        starts[i] <= starts[j],
    decreases j - i,
{
    if i < j {
        lemma_starts_rise(words, bpp, starts, i, j - 1);
        lemma_pow2_pos(bpp);
        let (w, p) = (words[j - 1] as int, pow2(bpp) as int);
        assert(starts[j - 1 + 1] == starts[j - 1] + w / p + 1);
        assert(w / p >= 0) by (nonlinear_arith)
            requires
                w >= 0,
                p > 0,
        ;
    }
}

/// The words that stand in `buf` behind the palette of a picture at `off`.
pub open spec fn words_stored(buf: Seq<u8>, off: int, palette_entries: int, count: nat) -> Seq<u16> {
    Seq::new(count, |i: int| u16_le(buf, off + 12 + 2 * palette_entries + 2 * i))
}

/// What a picture is: from `off` on stand a depth of 1 to 8 bits, a width of 1 to 800, a height of
/// 1 to 1000, the size of a palette that is not empty and that the depth can address, and 1 to
/// 200000 as the number of words; palette and words lie in the section; and the words use only the
/// palette and cover the picture exactly. Nothing less is recognised, and nothing of this kind is
/// not.
pub proof fn pictures_are_recognised_exactly(buf: Seq<u8>, off: int, starts: Seq<int>)
    requires
        0 <= off,
        off + 12 <= buf.len() <= usize::MAX,
        runs_begin(
            words_stored(buf, off, u16_le(buf, off + 6) as int, u32_le(buf, off + 8) as nat),
            u16_le(buf, off) as nat,
            starts,
        ),
    ensures
        ({
            let (bpp, width, height) = (
                u16_le(buf, off),
                u16_le(buf, off + 2),
                u16_le(buf, off + 4),
            );
            let (entries, count) = (u16_le(buf, off + 6), u32_le(buf, off + 8));
            let words = words_stored(buf, off, entries as int, count as nat);
            record_valid(buf, off) <==> {
                &&& 1 <= bpp <= 8
                &&& 1 <= width <= 800
                &&& 1 <= height <= 1000
                &&& 1 <= entries <= pow2(bpp as nat)
                &&& 1 <= count <= 200_000
                &&& off + 12 + 2 * entries + 2 * count <= buf.len()
                &&& forall|i: int|
                    0 <= i < count ==> (#[trigger] words[i]) as int % (pow2(bpp as nat) as int)
                        < entries
                &&& starts[count as int] == width * height
            }
        }),
{
    let (bpp, entries, count) = (u16_le(buf, off), u16_le(buf, off + 6), u32_le(buf, off + 8));
    let words = words_stored(buf, off, entries as int, count as nat);
    let h = header_at(buf, off);
    let rec = ImageRecord { offset: off as usize, header: h };
    runs_cover_the_picture(words, bpp as nat, starts);
    if off + 12 + 2 * entries + 2 * count <= buf.len() {
        assert(words_at(buf, rec) =~= words);
    }
}

/// Each pixel that a run covers has the colour of the palette's entry that its word points to.
pub proof fn pixels_have_their_words_colours(
    buf: Seq<u8>,
    rec: ImageRecord,
    starts: Seq<int>,
    i: int,
    s: int,
)
    requires
        rec.offset + 12 + 2 * rec.header.palette_entries + 2 * rec.header.rle_words <= buf.len(),
        runs_begin(
            words_stored(
                buf,
                rec.offset as int,
                rec.header.palette_entries as int,
                rec.header.rle_words as nat,
            ),
            rec.header.bpp as nat,
            starts,
        ),
        0 <= i < rec.header.rle_words,
        starts[i] <= s < starts[i + 1],
    ensures
        ({
            let off = rec.offset as int;
            let word = u16_le(buf, off + 12 + 2 * rec.header.palette_entries + 2 * i);
            let index = word as int % (pow2(rec.header.bpp as nat) as int);
            &&& 0 <= s < stored_pixels(buf, rec).len()
            &&& stored_pixels(buf, rec)[s] == rgb888(u16_le(buf, off + 12 + 2 * index))
        }),
{
    let (h, off) = (rec.header, rec.offset as int);
    let words = words_stored(buf, off, h.palette_entries as int, h.rle_words as nat);
    runs_cover_their_pixels(words, h.bpp as nat, starts, i, s);
    assert(words_at(buf, rec) =~= words);
    let index = expand(words, h.bpp as nat)[s];
    assert(stored_pixels(buf, rec)[s] == palette_color(buf, rec, index));
}

/// A picture that lies in the section decodes without a failure exactly where its runs end with
/// its last pixel; otherwise they give too many pixels, or too few.
pub proof fn pictures_decode_exactly(buf: Seq<u8>, rec: ImageRecord, starts: Seq<int>)
    requires
        rec.offset + 12 + 2 * rec.header.palette_entries + 2 * rec.header.rle_words <= buf.len(),
        runs_begin(
            words_stored(
                buf,
                rec.offset as int,
                rec.header.palette_entries as int,
                rec.header.rle_words as nat,
            ),
            rec.header.bpp as nat,
            starts,
        ),
    ensures
        ({
            let end = starts[rec.header.rle_words as int];
            let area = rec.header.width * rec.header.height;
            &&& stored_pixels(buf, rec).len() == end
            &&& decode_failure(buf, rec) == if end == area {
                None
            } else if end > area {
                Some(Error::TooManyPixels)
            } else {
                Some(
                    Error::PixelCountMismatch {
                        pixels: end as usize,
                        expected_pixels: area as usize,
                    },
                )
            }
        }),
{
    let (h, off) = (rec.header, rec.offset as int);
    let words = words_stored(buf, off, h.palette_entries as int, h.rle_words as nat);
    runs_cover_the_picture(words, h.bpp as nat, starts);
    assert(words_at(buf, rec) =~= words);
}

/// The rows of a stored picture are the columns of the image that shows it: byte by byte, what is
/// stored in column `x` of row `y` stands in row `x` of column `y`, and the image holds no more.
pub proof fn stored_rows_are_shown_as_columns(
    image: Raster,
    pixels: Seq<[u8; 3]>,
    width: nat,
    height: nat,
    x: int,
    y: int,
)
    requires
        shows(image, pixels, width, height),
        0 <= x < width,
        0 <= y < height,
    ensures
        image.width == height,
        image.height == width,
        image.bytes.len() == 3 * width * height,
        image.bytes[3 * (x * height + y)] == pixels[y * width + x][0],
        image.bytes[3 * (x * height + y) + 1] == pixels[y * width + x][1],
        image.bytes[3 * (x * height + y) + 2] == pixels[y * width + x][2],
{
    let p = image.pixel(y, x);
    assert(p == pixels[y * width + x]);
    assert(p[0] == image.bytes[3 * (x * height + y)]);
}

/// Depths of 1 to 8 bits go with palettes of one entry up to as many as the bits can address, and
/// only these.
pub proof fn depths_are_checked_exactly(bpp: u16, palette_entries: u16)
    ensures
        depth_valid(bpp, palette_entries) <==> palette_entries >= 1 && (bpp == 1
            && palette_entries <= 2 || bpp == 2 && palette_entries <= 4 || bpp == 3
            && palette_entries <= 8 || bpp == 4 && palette_entries <= 16 || bpp == 5
            && palette_entries <= 32 || bpp == 6 && palette_entries <= 64 || bpp == 7
            && palette_entries <= 128 || bpp == 8 && palette_entries <= 256),
        depth_failure(bpp, palette_entries) is None <==> depth_valid(bpp, palette_entries),
        depth_failure(bpp, palette_entries) == Some(Error::InvalidBpp { bpp }) <==> bpp == 0 || bpp
            > 8,
{
    lemma2_to64();
}

} // verus!
