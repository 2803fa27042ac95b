//! What is packed is found again, and what is found packs again.

use vstd::prelude::*;

use crate::container::{
    first_tagged, header_reads, section_fits, section_offset, section_present, section_reads,
    section_size, section_slot, section_tag, sections_lie_inside, u16_le, u32_le, Firmware,
    SECTION_ENTRY_SIZE,
};
use crate::depacketize::{
    clean_bytes_are_found, clean_section, frame_count, mapped_len, only_headers_are_stripped,
    original_abs, writes_land_in_the_clean_section,
};
use crate::error::Error;
use crate::export::{describes, ManifestImageEntry};
use crate::firmware::{contents, firmware_reads};
use crate::image_format::{
    decodable, decode_failure, depth_valid, expand, header_at, header_plausible, lemma_expand_len,
    lemma_pow2_16, lemma_u16_product, palette_color, record_valid, rgb888, runs_valid, shows,
    stored_pixels, word_index, words_at, ImageRecord, ImageRecordHeader, IMAGE_HEADER_SIZE,
};
use crate::palette::{
    colors_of, colours_survive_expansion, few_colours_are_all_kept, nearest,
    palette_colours_are_exact, rgb565,
};
use crate::raster::Raster;
use crate::repack::{
    encode_failure, encoded_header, encoded_indices, encoded_palette, encoded_words, encodes,
    lemma_indices_fit, record_holds, size_failure, source_pixels, written,
};
use crate::rle::{all_fit, encoded_indices_are_read_back, encoding_is_shortest, runs_of};
use crate::scanner::{candidates, every_picture_is_found, without_overlaps};
use crate::waves::{sounds_depend_on_their_bytes, wave_at, Wave};

verus! {

/// The colours in which a picture that is encoded from `pixels` is decoded: for each pixel the
/// entry of the palette nearest to it.
pub open spec fn repainted(pixels: Seq<[u8; 3]>, palette_entries: u16) -> Seq<[u8; 3]> {
    let palette = encoded_palette(pixels, palette_entries);
    Seq::new(pixels.len(), |s: int| rgb888(palette[nearest(palette, colors_of(pixels)[s])]))
}

/// The record of `entry` at `off` when it shows `pixels`.
pub open spec fn packed_record(
    entry: ManifestImageEntry,
    off: usize,
    pixels: Seq<[u8; 3]>,
) -> ImageRecord {
    ImageRecord { offset: off, header: encoded_header(entry, pixels) }
}

/// An upright image gives back the stored pixels that it shows.
pub proof fn shown_pixels_are_taken_out(
    image: Raster,
    pixels: Seq<[u8; 3]>,
    width: nat,
    height: nat,
)
    requires
        shows(image, pixels, width, height),
        pixels.len() == width * height,
    ensures
        source_pixels(image, width, height) == pixels,
{
    let w = width as int;
    let h = height as int;
    let taken = source_pixels(image, width, height);
    assert forall|s: int| 0 <= s < pixels.len() implies #[trigger] taken[s] == pixels[s] by {
        assert(w > 0) by (nonlinear_arith)
            requires
                0 <= s < w * h,
                w >= 0,
        ;
        let x = s % w;
        let y = s / w;
        vstd::arithmetic::div_mod::lemma_fundamental_div_mod(s, w);
        assert(0 <= y < h) by (nonlinear_arith)
            requires
                s == w * y + x,
                0 <= x < w,
                0 <= s < w * h,
        ;
        assert(y * w + x == s) by (nonlinear_arith)
            requires
                s == w * y + x,
        ;
        assert(taken[s] == image.pixel(y, x));
    }
    assert(taken =~= pixels);
}

proof fn lemma_subrange_reads(buf: Seq<u8>, off: int, size: int, p: int)
    requires
        0 <= off,
        0 <= p,
        p + 2 <= size,
        off + size <= buf.len(),
    ensures
        u16_le(buf.subrange(off, off + size), p) == u16_le(buf, off + p),
        p + 4 <= size ==> u32_le(buf.subrange(off, off + size), p) == u32_le(buf, off + p),
{
}

proof fn lemma_record_reads(
    buf: Seq<u8>,
    rec: ImageRecord,
    size: int,
    palette: Seq<u16>,
    words: Seq<u16>,
)
    requires
        rec.offset + size <= buf.len(),
        record_holds(
            buf.subrange(rec.offset as int, rec.offset + size),
            0,
            rec.header,
            palette,
            words,
        ),
        rec.header.palette_entries == palette.len(),
        rec.header.rle_words == words.len(),
        0 <= size,
    ensures
        rec.offset + rec.header.size() <= buf.len(),
        header_at(buf, rec.offset as int) == rec.header,
        words_at(buf, rec) == words,
        forall|k: nat|
            k < palette.len() ==> #[trigger] palette_color(buf, rec, k) == rgb888(
                palette[k as int],
            ),
{
    let off = rec.offset as int;
    let bytes = buf.subrange(off, off + size);
    let palette_at = 0 + IMAGE_HEADER_SIZE;
    let runs_at = palette_at + palette.len() * 2;
    assert(header_at(bytes, 0) == header_at(buf, off)) by {
        lemma_subrange_reads(buf, off, size, 0);
        lemma_subrange_reads(buf, off, size, 2);
        lemma_subrange_reads(buf, off, size, 4);
        lemma_subrange_reads(buf, off, size, 6);
        lemma_subrange_reads(buf, off, size, 8);
    }
    let found = words_at(buf, rec);
    assert(found.len() == words.len());
    assert forall|i: int| 0 <= i < words.len() implies #[trigger] found[i] == words[i] by {
        assert(u16_le(bytes, runs_at + i * 2) == words[i]);
        lemma_subrange_reads(buf, off, size, runs_at + i * 2);
        assert(found[i] == u16_le(buf, rec.rle_offset() + i * 2));
        assert(rec.rle_offset() + i * 2 == off + (runs_at + i * 2));
    }
    assert(found =~= words);
    assert forall|k: nat| k < palette.len() implies #[trigger] palette_color(buf, rec, k)
        == rgb888(palette[k as int]) by {
        let i = k as int;
        assert(u16_le(bytes, palette_at + i * 2) == palette[i]);
        lemma_subrange_reads(buf, off, size, palette_at + i * 2);
        assert(rec.palette_offset() + i * 2 == off + (palette_at + i * 2));
    }
}

/// `indices` painted with the colours of `palette`.
pub open spec fn painted(palette: Seq<u16>, indices: Seq<u8>) -> Seq<[u8; 3]> {
    Seq::new(indices.len(), |s: int| rgb888(palette[indices[s] as int]))
}

proof fn lemma_indexed_record(
    buf: Seq<u8>,
    rec: ImageRecord,
    size: int,
    palette: Seq<u16>,
    indices: Seq<u8>,
)
    requires
        buf.len() <= usize::MAX,
        0 <= size,
        rec.offset + size <= buf.len(),
        record_holds(
            buf.subrange(rec.offset as int, rec.offset + size),
            0,
            rec.header,
            palette,
            runs_of(indices, rec.header.bpp as nat),
        ),
        rec.header.bpp < 16,
        all_fit(indices, rec.header.bpp as nat),
        rec.header.palette_entries == palette.len(),
        rec.header.rle_words == runs_of(indices, rec.header.bpp as nat).len(),
        rec.header.pixels() == indices.len(),
        3 * indices.len() <= usize::MAX,
        forall|i: int| 0 <= i < indices.len() ==> (#[trigger] indices[i]) < palette.len(),
    ensures
        rec.offset + rec.header.size() <= buf.len(),
        header_at(buf, rec.offset as int) == rec.header,
        runs_valid(words_at(buf, rec), rec.header),
        decodable(buf, rec),
        decode_failure(buf, rec) is None,
        stored_pixels(buf, rec) == painted(palette, indices),
{
    let bpp = rec.header.bpp as nat;
    let words = runs_of(indices, bpp);
    encoded_indices_are_read_back(indices, bpp);
    lemma_expand_len(words, bpp);
    lemma_record_reads(buf, rec, size, palette, words);
    assert forall|i: int| 0 <= i < words.len() implies word_index(#[trigger] words[i], bpp)
        < palette.len() by {
        let v = word_index(words[i], bpp) as u8;
        assert(indices.contains(v));
        let k = choose|k: int| 0 <= k < indices.len() && indices[k] == v;
        assert(indices[k] < palette.len());
    }
    let stored = stored_pixels(buf, rec);
    assert forall|s: int| 0 <= s < indices.len() implies #[trigger] stored[s] == painted(
        palette,
        indices,
    )[s] by {
        assert(expand(words, bpp)[s] == indices[s]);
        assert(palette_color(buf, rec, indices[s] as nat) == rgb888(
            palette[indices[s] as int],
        ));
    }
    assert(stored =~= painted(palette, indices));
}

/// A packed picture decodes without a failure, each pixel in the colour of the palette that is
/// nearest to the one it was packed with. It is recognised as a picture where its dimensions and
/// the number of its words are those of one.
pub proof fn packed_pictures_decode(
    buf: Seq<u8>,
    off: usize,
    entry: ManifestImageEntry,
    pixels: Seq<[u8; 3]>,
)
    requires
        buf.len() <= usize::MAX,
        off + entry.record_size_bytes <= buf.len(),
        encodes(buf.subrange(off as int, off + entry.record_size_bytes), entry, pixels),
        depth_valid(entry.bpp, entry.palette_entries),
        pixels.len() == entry.width * entry.height,
        3 * pixels.len() <= usize::MAX,
    ensures
        ({
            let rec = packed_record(entry, off, pixels);
            &&& header_at(buf, off as int) == rec.header
            &&& decodable(buf, rec)
            &&& decode_failure(buf, rec) is None
            &&& stored_pixels(buf, rec) == repainted(pixels, entry.palette_entries)
            &&& record_valid(buf, off as int) <==> header_plausible(rec.header)
        }),
{
    let rec = packed_record(entry, off, pixels);
    let palette = encoded_palette(pixels, entry.palette_entries);
    let indices = encoded_indices(pixels, entry.palette_entries);
    lemma_indices_fit(pixels, entry.bpp, entry.palette_entries);
    lemma_pow2_16(entry.bpp as nat);
    lemma_u16_product(entry.width, entry.height);
    encoded_indices_are_read_back(indices, entry.bpp as nat);
    lemma_indexed_record(buf, rec, entry.record_size_bytes as int, palette, indices);
    assert(painted(palette, indices) =~= repainted(pixels, entry.palette_entries));
}

/// Where the colours of the pixels are not more than the palette has entries, a packed picture
/// keeps them, but for their reduction to 5-6-5 bits.
pub proof fn few_colours_are_packed_exactly(
    pixels: Seq<[u8; 3]>,
    some: Seq<u16>,
    palette_entries: u16,
    s: int,
)
    requires
        some.len() <= palette_entries,
        forall|k: int| 0 <= k < pixels.len() ==> some.contains(rgb565(#[trigger] pixels[k])),
        0 <= s < pixels.len(),
    ensures
        repainted(pixels, palette_entries)[s] == rgb888(rgb565(pixels[s])),
{
    let colors = colors_of(pixels);
    assert forall|k: int| 0 <= k < colors.len() implies some.contains(#[trigger] colors[k]) by {
        assert(some.contains(rgb565(pixels[k])));
    }
    few_colours_are_all_kept(colors, some, palette_entries as nat, s);
    palette_colours_are_exact(encoded_palette(pixels, palette_entries), colors[s]);
}

proof fn lemma_expand_bounded(words: Seq<u16>, bpp: nat, limit: nat)
    requires
        forall|i: int| 0 <= i < words.len() ==> word_index(#[trigger] words[i], bpp) < limit,
    ensures
        forall|s: int| 0 <= s < expand(words, bpp).len() ==> (#[trigger] expand(words, bpp)[s])
            < limit,
    decreases words.len(),
{
    if words.len() > 0 {
        assert forall|i: int| 0 <= i < words.drop_last().len() implies word_index(
            #[trigger] words.drop_last()[i],
            bpp,
        ) < limit by {
            assert(words[i] == words.drop_last()[i]);
        }
        lemma_expand_bounded(words.drop_last(), bpp, limit);
        let last = words[words.len() - 1];
        assert(word_index(last, bpp) < limit);
        let front = expand(words.drop_last(), bpp);
        let all = expand(words, bpp);
        assert forall|s: int| 0 <= s < all.len() implies (#[trigger] all[s]) < limit by {
            if s < front.len() {
                assert(all[s] == front[s]);
            } else {
                assert(all[s] == word_index(last, bpp));
            }
        }
    }
}

/// A picture of the firmware packs again: its pixels take no more bytes than they did, and
/// decode to the same pixels once more.
pub proof fn stored_pixels_pack_again(buf: Seq<u8>, off: usize, entry: ManifestImageEntry)
    requires
        buf.len() <= usize::MAX,
        record_valid(buf, off as int),
        entry.bpp == header_at(buf, off as int).bpp,
        entry.width == header_at(buf, off as int).width,
        entry.height == header_at(buf, off as int).height,
        entry.palette_entries == header_at(buf, off as int).palette_entries,
        entry.record_size_bytes >= header_at(buf, off as int).size(),
    ensures
        ({
            let rec = ImageRecord { offset: off, header: header_at(buf, off as int) };
            let pixels = stored_pixels(buf, rec);
            &&& pixels.len() == entry.width * entry.height
            &&& encoded_words(pixels, entry.bpp, entry.palette_entries).len()
                <= rec.header.rle_words
            &&& size_failure(entry, pixels) is None
            &&& repainted(pixels, entry.palette_entries) == pixels
        }),
{
    let rec = ImageRecord { offset: off, header: header_at(buf, off as int) };
    let bpp = entry.bpp as nat;
    let words = words_at(buf, rec);
    let old = expand(words, bpp);
    let pixels = stored_pixels(buf, rec);
    let palette = Seq::new(
        entry.palette_entries as nat,
        |k: int| u16_le(buf, rec.palette_offset() + k * 2),
    );
    lemma_expand_len(words, bpp);
    lemma_expand_bounded(words, bpp, entry.palette_entries as nat);
    assert forall|s: int| 0 <= s < pixels.len() implies {
        &&& #[trigger] pixels[s] == rgb888(palette[old[s] as int])
        &&& rgb565(pixels[s]) == palette[old[s] as int]
        &&& palette.contains(rgb565(pixels[s]))
    } by {
        assert(old[s] < entry.palette_entries);
        colours_survive_expansion(palette[old[s] as int]);
    }
    let again = repainted(pixels, entry.palette_entries);
    assert forall|s: int| 0 <= s < pixels.len() implies #[trigger] again[s] == pixels[s] by {
        few_colours_are_packed_exactly(pixels, palette, entry.palette_entries, s);
    }
    assert(again =~= pixels);
    let indices = encoded_indices(pixels, entry.palette_entries);
    assert forall|i: int, j: int|
        0 <= i < indices.len() && 0 <= j < indices.len() && #[trigger] expand(words, bpp)[i]
            == #[trigger] expand(words, bpp)[j] implies indices[i] == indices[j] by {
        assert(pixels[i] == pixels[j]);
        assert(colors_of(pixels)[i] == colors_of(pixels)[j]);
    }
    lemma_pow2_16(bpp);
    encoding_is_shortest(words, indices, bpp);
}

/// An extracted picture can be packed again as it is, and nothing of it is lost.
pub proof fn extracted_pictures_pack_again(
    buf: Seq<u8>,
    rec: ImageRecord,
    index: int,
    bina_abs_offset: int,
    entry: ManifestImageEntry,
    image: Raster,
)
    requires
        buf.len() <= usize::MAX,
        record_valid(buf, rec.offset as int),
        rec.header == header_at(buf, rec.offset as int),
        describes(entry, index, rec, bina_abs_offset),
        shows(
            image,
            stored_pixels(buf, rec),
            rec.header.width as nat,
            rec.header.height as nat,
        ),
    ensures
        encode_failure(entry, image) is None,
        ({
            let pixels = source_pixels(image, entry.width as nat, entry.height as nat);
            pixels == stored_pixels(buf, rec) && repainted(pixels, entry.palette_entries) == pixels
        }),
{
    stored_pixels_pack_again(buf, rec.offset, entry);
    shown_pixels_are_taken_out(
        image,
        stored_pixels(buf, rec),
        rec.header.width as nat,
        rec.header.height as nat,
    );
}

proof fn lemma_low_byte(a: int, high_a: int, b: int, high_b: int)
    requires
        0 <= a < 0x100,
        0 <= b < 0x100,
        a + 0x100 * high_a == b + 0x100 * high_b,
    ensures
        a == b,
        high_a == high_b,
{
}

proof fn lemma_same_number(a: Seq<u8>, b: Seq<u8>, p: int)
    requires
        u16_le(a, p) == u16_le(b, p),
    ensures
        a[p] == b[p],
        a[p + 1] == b[p + 1],
{
    lemma_low_byte(a[p] as int, a[p + 1] as int, b[p] as int, b[p + 1] as int);
}

proof fn lemma_same_long_number(a: Seq<u8>, b: Seq<u8>, p: int)
    requires
        u32_le(a, p) == u32_le(b, p),
    ensures
        a[p] == b[p],
        a[p + 1] == b[p + 1],
        a[p + 2] == b[p + 2],
        a[p + 3] == b[p + 3],
{
    let (a0, a1, a2, a3) = (a[p] as int, a[p + 1] as int, a[p + 2] as int, a[p + 3] as int);
    let (b0, b1, b2, b3) = (b[p] as int, b[p + 1] as int, b[p + 2] as int, b[p + 3] as int);
    lemma_low_byte(a0, a1 + 0x100 * (a2 + 0x100 * a3), b0, b1 + 0x100 * (b2 + 0x100 * b3));
    lemma_low_byte(a1, a2 + 0x100 * a3, b1, b2 + 0x100 * b3);
    lemma_low_byte(a2, a3, b2, b3);
}

proof fn lemma_same_header(a: Seq<u8>, b: Seq<u8>, i: int)
    requires
        header_at(a, 0) == header_at(b, 0),
        0 <= i < IMAGE_HEADER_SIZE,
    ensures
        a[i] == b[i],
{
    let (x, y) = (header_at(a, 0), header_at(b, 0));
    if i < 2 {
        assert(x.bpp == y.bpp);
        lemma_same_number(a, b, 0);
    } else if i < 4 {
        assert(x.width == y.width);
        lemma_same_number(a, b, 2);
    } else if i < 6 {
        assert(x.height == y.height);
        lemma_same_number(a, b, 4);
    } else if i < 8 {
        assert(x.palette_entries == y.palette_entries);
        lemma_same_number(a, b, 6);
    } else {
        assert(x.rle_words == y.rle_words);
        lemma_same_long_number(a, b, 8);
    }
}

/// Bytes that hold the same numbers from `at` on are the same.
proof fn lemma_same_numbers(a: Seq<u8>, b: Seq<u8>, at: int, numbers: Seq<u16>, i: int)
    requires
        forall|k: int| 0 <= k < numbers.len() ==> #[trigger] u16_le(a, at + k * 2) == numbers[k],
        forall|k: int| 0 <= k < numbers.len() ==> #[trigger] u16_le(b, at + k * 2) == numbers[k],
        at <= i < at + numbers.len() * 2,
    ensures
        a[i] == b[i],
{
    let k = (i - at) / 2;
    assert(u16_le(a, at + k * 2) == numbers[k]);
    assert(u16_le(b, at + k * 2) == numbers[k]);
    lemma_same_number(a, b, at + k * 2);
}

proof fn lemma_same_bytes(
    a: Seq<u8>,
    b: Seq<u8>,
    header: ImageRecordHeader,
    palette: Seq<u16>,
    words: Seq<u16>,
    i: int,
)
    requires
        record_holds(a, 0, header, palette, words),
        record_holds(b, 0, header, palette, words),
        header.palette_entries == palette.len(),
        header.rle_words == words.len(),
        0 <= i < header.size(),
    ensures
        a[i] == b[i],
{
    let palette_at = 0 + IMAGE_HEADER_SIZE;
    let runs_at = palette_at + palette.len() * 2;
    if i < palette_at {
        lemma_same_header(a, b, i);
    } else if i < runs_at {
        lemma_same_numbers(a, b, palette_at, palette, i);
    } else {
        lemma_same_numbers(a, b, runs_at, words, i);
    }
}

/// The record of given pixels is one only.
pub proof fn records_are_determined(
    a: Seq<u8>,
    b: Seq<u8>,
    entry: ManifestImageEntry,
    pixels: Seq<[u8; 3]>,
)
    requires
        encodes(a, entry, pixels),
        encodes(b, entry, pixels),
        depth_valid(entry.bpp, entry.palette_entries),
        pixels.len() == entry.width * entry.height,
    ensures
        a == b,
{
    let header = encoded_header(entry, pixels);
    let palette = encoded_palette(pixels, entry.palette_entries);
    let words = encoded_words(pixels, entry.bpp, entry.palette_entries);
    lemma_indices_fit(pixels, entry.bpp, entry.palette_entries);
    lemma_pow2_16(entry.bpp as nat);
    lemma_u16_product(entry.width, entry.height);
    encoded_indices_are_read_back(
        encoded_indices(pixels, entry.palette_entries),
        entry.bpp as nat,
    );
    assert forall|i: int| 0 <= i < a.len() implies #[trigger] a[i] == b[i] by {
        if i < header.size() {
            lemma_same_bytes(a, b, header, palette, words, i);
        } else {
            assert(b[i] == 0);
        }
    }
    assert(a =~= b);
}

/// `clean` with `bytes` in place of what stands at `off`.
pub open spec fn replaced(clean: Seq<u8>, off: int, bytes: Seq<u8>) -> Seq<u8> {
    Seq::new(
        clean.len(),
        |j: int|
            if off <= j < off + bytes.len() {
                bytes[j - off]
            } else {
                clean[j]
            },
    )
}

/// Writing bytes at their places in the file replaces these bytes of the clean section, as long
/// as they stand before the last frame's end, and changes nothing outside the section.
pub proof fn written_bytes_land(
    file: Seq<u8>,
    bina_abs_offset: int,
    size: int,
    off: int,
    bytes: Seq<u8>,
)
    requires
        0 <= bina_abs_offset,
        0 <= size,
        bina_abs_offset + size <= file.len(),
        0 <= off,
        off + bytes.len() <= mapped_len(
            file.subrange(bina_abs_offset, bina_abs_offset + size),
        ),
    ensures
        ({
            let bina = file.subrange(bina_abs_offset, bina_abs_offset + size);
            let after = written(file, off, bytes, bina_abs_offset);
            let bina_after = after.subrange(bina_abs_offset, bina_abs_offset + size);
            &&& after.len() == file.len()
            &&& frame_count(bina_after) == frame_count(bina)
            &&& mapped_len(bina_after) == mapped_len(bina)
            &&& clean_section(bina_after) == replaced(clean_section(bina), off, bytes)
            &&& forall|p: int|
                0 <= p < bina_abs_offset || bina_abs_offset + size <= p < file.len()
                    ==> #[trigger] after[p] == file[p]
        }),
    decreases bytes.len(),
{
    let bina = file.subrange(bina_abs_offset, bina_abs_offset + size);
    let clean = clean_section(bina);
    if bytes.len() == 0 {
        assert(replaced(clean, off, bytes) =~= clean);
    } else {
        let shorter = bytes.drop_last();
        let j = off + bytes.len() - 1;
        written_bytes_land(file, bina_abs_offset, size, off, shorter);
        let before = written(file, off, shorter, bina_abs_offset);
        let bina_before = before.subrange(bina_abs_offset, bina_abs_offset + size);
        let place = original_abs(j, bina_abs_offset);
        let after = before.update(place, bytes.last());
        let bina_after = after.subrange(bina_abs_offset, bina_abs_offset + size);
        assert(after == written(file, off, bytes, bina_abs_offset));
        clean_bytes_are_found(before, bina_abs_offset, bina_before, j);
        assert(place == bina_abs_offset + original_abs(j, 0));
        assert(bina_after =~= bina_before.update(original_abs(j, 0), bytes.last()));
        writes_land_in_the_clean_section(bina_before, j, bytes.last());
        assert(replaced(clean, off, shorter).update(j, bytes.last()) =~= replaced(
            clean,
            off,
            bytes,
        ));
    }
}

/// A picture that is packed into a firmware file stands in the clean section of the file at the
/// place of its entry, and decodes from there in the colours it was packed with, reduced to the
/// palette. The rest of the clean section is as it was.
pub proof fn packed_pictures_are_found_again(
    file: Seq<u8>,
    bina_abs_offset: int,
    size: int,
    entry: ManifestImageEntry,
    pixels: Seq<[u8; 3]>,
    record: Seq<u8>,
)
    requires
        0 <= bina_abs_offset,
        0 <= size <= usize::MAX,
        bina_abs_offset + size <= file.len(),
        depth_valid(entry.bpp, entry.palette_entries),
        pixels.len() == entry.width * entry.height,
        3 * pixels.len() <= usize::MAX,
        encodes(record, entry, pixels),
        entry.clean_bina_offset + record.len() <= mapped_len(
            file.subrange(bina_abs_offset, bina_abs_offset + size),
        ),
    ensures
        ({
            let off = entry.clean_bina_offset;
            let bina = file.subrange(bina_abs_offset, bina_abs_offset + size);
            let after = written(file, off as int, record, bina_abs_offset);
            let clean = clean_section(
                after.subrange(bina_abs_offset, bina_abs_offset + size),
            );
            let rec = packed_record(entry, off, pixels);
            &&& clean == replaced(clean_section(bina), off as int, record)
            &&& header_at(clean, off as int) == rec.header
            &&& record_valid(clean, off as int) <==> header_plausible(rec.header)
            &&& decodable(clean, rec)
            &&& decode_failure(clean, rec) is None
            &&& stored_pixels(clean, rec) == repainted(pixels, entry.palette_entries)
        }),
{
    let off = entry.clean_bina_offset as int;
    let bina = file.subrange(bina_abs_offset, bina_abs_offset + size);
    written_bytes_land(file, bina_abs_offset, size, off, record);
    let clean = replaced(clean_section(bina), off, record);
    only_headers_are_stripped(bina);
    assert(clean.subrange(off, off + record.len()) =~= record);
    packed_pictures_decode(clean, entry.clean_bina_offset, entry, pixels);
}

/// Replacing bytes keeps every picture that they do not touch.
pub proof fn other_pictures_are_kept(clean: Seq<u8>, off: int, bytes: Seq<u8>, r: ImageRecord)
    requires
        clean.len() <= usize::MAX,
        record_valid(clean, r.offset as int),
        r.header == header_at(clean, r.offset as int),
        r.offset + r.header.size() <= off || off + bytes.len() <= r.offset,
    ensures
        ({
            let after = replaced(clean, off, bytes);
            &&& record_valid(after, r.offset as int)
            &&& header_at(after, r.offset as int) == r.header
            &&& stored_pixels(after, r) == stored_pixels(clean, r)
        }),
{
    let after = replaced(clean, off, bytes);
    let at = r.offset as int;
    let size = r.header.size();
    assert forall|p: int| at <= p < at + size implies #[trigger] after[p] == clean[p] by {}
    assert(header_at(after, at) == r.header);
    let words = words_at(clean, r);
    assert forall|i: int| 0 <= i < words.len() implies #[trigger] words_at(after, r)[i]
        == words[i] by {
        let p = r.rle_offset() + i * 2;
        assert(after[p] == clean[p] && after[p + 1] == clean[p + 1]);
    }
    assert(words_at(after, r) =~= words);
    lemma_expand_bounded(words, r.header.bpp as nat, r.header.palette_entries as nat);
    let indices = expand(words, r.header.bpp as nat);
    assert forall|s: int| 0 <= s < indices.len() implies #[trigger] stored_pixels(after, r)[s]
        == stored_pixels(clean, r)[s] by {
        assert(indices[s] < r.header.palette_entries);
        let p = r.palette_offset() + indices[s] * 2;
        assert(after[p] == clean[p] && after[p + 1] == clean[p + 1]);
    }
    assert(stored_pixels(after, r) =~= stored_pixels(clean, r));
}

/// Replacing bytes keeps every sound that they do not touch.
pub proof fn other_sounds_are_kept(clean: Seq<u8>, off: int, bytes: Seq<u8>, w: Wave)
    requires
        0 <= w.offset,
        wave_at(clean, w.offset) == Ok::<Option<Wave>, Error>(Some(w)),
        w.end <= off || off + bytes.len() <= w.offset,
    ensures
        wave_at(replaced(clean, off, bytes), w.offset) == Ok::<Option<Wave>, Error>(Some(w)),
{
    sounds_depend_on_their_bytes(clean, replaced(clean, off, bytes), w);
}

proof fn lemma_same_front(a: Seq<u8>, b: Seq<u8>, end: int, off: int, len: int)
    requires
        a.len() == b.len(),
        end <= a.len(),
        forall|p: int| 0 <= p < end ==> #[trigger] a[p] == b[p],
        0 <= off,
        0 <= len,
        off + len <= end,
    ensures
        a.subrange(off, off + len) == b.subrange(off, off + len),
        len == 4 ==> u32_le(a, off) == u32_le(b, off),
{
    assert(a.subrange(off, off + len) =~= b.subrange(off, off + len));
    if len == 4 {
        assert(a[off] == b[off] && a[off + 1] == b[off + 1] && a[off + 2] == b[off + 2] && a[off
            + 3] == b[off + 3]);
    }
}

proof fn lemma_same_section(a: Seq<u8>, b: Seq<u8>, end: int, k: int)
    requires
        a.len() == b.len(),
        end <= a.len(),
        forall|p: int| 0 <= p < end ==> #[trigger] a[p] == b[p],
        0 <= k,
        section_slot(k) + SECTION_ENTRY_SIZE <= end,
    ensures
        section_present(a, k) == section_present(b, k),
        section_fits(a, k) == section_fits(b, k),
        section_tag(a, k) == section_tag(b, k),
        section_size(a, k) == section_size(b, k),
        section_offset(a, k) == section_offset(b, k),
{
    lemma_same_front(a, b, end, section_slot(k), 4);
    lemma_same_front(a, b, end, section_slot(k) + 4, 4);
    lemma_same_front(a, b, end, section_slot(k) + 8, 4);
    assert(section_tag(a, k) == section_tag(b, k));
    if section_present(a, k) {
        let j = choose|j: int| 0 <= j < 4 && section_tag(a, k)[j] != 0;
        assert(section_tag(b, k)[j] != 0);
    }
    if section_present(b, k) {
        let j = choose|j: int| 0 <= j < 4 && section_tag(b, k)[j] != 0;
        assert(section_tag(a, k)[j] != 0);
    }
}

/// What a firmware file parses to depends on its size and on what stands before the end of the
/// section table alone.
pub proof fn parsing_depends_on_the_front(a: Seq<u8>, b: Seq<u8>, end: int, fw: Firmware)
    requires
        firmware_reads(a, fw),
        a.len() == b.len(),
        section_slot(fw.sections@.len() as int) + SECTION_ENTRY_SIZE <= end <= a.len(),
        forall|p: int| 0 <= p < end ==> #[trigger] a[p] == b[p],
    ensures
        firmware_reads(b, fw),
{
    lemma_same_front(a, b, end, 0, 7);
    lemma_same_front(a, b, end, 0x08, 4);
    lemma_same_front(a, b, end, 0x0c, 4);
    lemma_same_front(a, b, end, 0x10, 4);
    lemma_same_front(a, b, end, 0x14, 0x100);
    lemma_same_front(a, b, end, 0x114, 0x100);
    lemma_same_front(a, b, end, 0x214, 0x10);
    assert(header_reads(b, fw.header));
    let sections = fw.sections@;
    assert forall|i: int| 0 <= i < sections.len() implies section_reads(
        b,
        i,
        #[trigger] sections[i],
    ) by {
        assert(section_reads(a, i, sections[i]));
        assert(section_slot(i) <= section_slot(sections.len() as int));
        lemma_same_section(a, b, end, i);
    }
    lemma_same_section(a, b, end, sections.len() as int);
}

/// Packing a picture leaves a firmware file that parses as before, with the record of the
/// picture in the clean section and all else unchanged.
///
/// The section has to begin behind the section table, and the record to stand before the end of
/// the last frame.
pub proof fn packed_firmware_loads(
    file: Seq<u8>,
    fw: Firmware,
    i: int,
    clean_bina_offset: usize,
    record: Seq<u8>,
)
    requires
        firmware_reads(file, fw),
        first_tagged(fw.sections@, "BINA"@, i),
        section_slot(fw.sections@.len() as int) + SECTION_ENTRY_SIZE <= fw.sections@[i].offset,
        clean_bina_offset + record.len() <= mapped_len(contents(file, fw.sections@[i], false)),
    ensures
        ({
            let bina = fw.sections@[i];
            let after = written(file, clean_bina_offset as int, record, bina.offset as int);
            &&& firmware_reads(after, fw)
            &&& contents(after, bina, true) == replaced(
                contents(file, bina, true),
                clean_bina_offset as int,
                record,
            )
        }),
{
    let bina = fw.sections@[i];
    let after = written(file, clean_bina_offset as int, record, bina.offset as int);
    sections_lie_inside(file, fw.sections@);
    written_bytes_land(
        file,
        bina.offset as int,
        bina.size as int,
        clean_bina_offset as int,
        record,
    );
    parsing_depends_on_the_front(file, after, bina.offset as int, fw);
}

/// A packed picture is recognised exactly where it is 1 to 800 pixels wide and 1 to 1000 high and
/// takes not more than 200000 words.
pub proof fn packed_pictures_are_recognised(
    buf: Seq<u8>,
    off: usize,
    entry: ManifestImageEntry,
    pixels: Seq<[u8; 3]>,
)
    requires
        buf.len() <= usize::MAX,
        off + entry.record_size_bytes <= buf.len(),
        encodes(buf.subrange(off as int, off + entry.record_size_bytes), entry, pixels),
        depth_valid(entry.bpp, entry.palette_entries),
        pixels.len() == entry.width * entry.height,
        3 * pixels.len() <= usize::MAX,
    ensures
        record_valid(buf, off as int) <==> {
            &&& 1 <= entry.width <= 800
            &&& 1 <= entry.height <= 1000
            &&& encoded_words(pixels, entry.bpp, entry.palette_entries).len() <= 200_000
        },
{
    let indices = encoded_indices(pixels, entry.palette_entries);
    let words = encoded_words(pixels, entry.bpp, entry.palette_entries);
    packed_pictures_decode(buf, off, entry, pixels);
    lemma_indices_fit(pixels, entry.bpp, entry.palette_entries);
    lemma_pow2_16(entry.bpp as nat);
    lemma_u16_product(entry.width, entry.height);
    encoded_indices_are_read_back(indices, entry.bpp as nat);
    if entry.width >= 1 && entry.height >= 1 {
        let (w, h) = (entry.width as int, entry.height as int);
        assert(w * h >= 1) by (nonlinear_arith)
            requires
                w >= 1,
                h >= 1,
        ;
        assert(words.len() >= 1) by {
            if words.len() == 0 {
                assert(expand(words, entry.bpp as nat) =~= Seq::empty());
            }
        }
    }
}

/// A picture that is packed into a firmware file, of 1 to 800 by 1 to 1000 pixels and not more than
/// 200000 words, is found again by a scan of the clean section that comes by its place, unless it
/// begins inside another picture that is found.
pub proof fn packed_pictures_are_scanned(
    file: Seq<u8>,
    bina_abs_offset: int,
    size: int,
    entry: ManifestImageEntry,
    pixels: Seq<[u8; 3]>,
    record: Seq<u8>,
    scan_start: int,
    min_area: int,
)
    requires
        0 <= bina_abs_offset,
        0 <= size <= usize::MAX,
        bina_abs_offset + size <= file.len(),
        depth_valid(entry.bpp, entry.palette_entries),
        pixels.len() == entry.width * entry.height,
        3 * pixels.len() <= usize::MAX,
        encodes(record, entry, pixels),
        entry.clean_bina_offset + record.len() <= mapped_len(
            file.subrange(bina_abs_offset, bina_abs_offset + size),
        ),
        1 <= entry.width <= 800,
        1 <= entry.height <= 1000,
        encoded_words(pixels, entry.bpp, entry.palette_entries).len() <= 200_000,
        0 <= scan_start <= entry.clean_bina_offset,
        (entry.clean_bina_offset - scan_start) % 4 == 0,
        entry.width * entry.height >= min_area,
    ensures
        ({
            let after = written(file, entry.clean_bina_offset as int, record, bina_abs_offset);
            let clean = clean_section(
                after.subrange(bina_abs_offset, bina_abs_offset + size),
            );
            let found = without_overlaps(candidates(clean, scan_start, min_area), 0);
            let rec = packed_record(entry, entry.clean_bina_offset, pixels);
            found.contains(rec) || exists|k: int|
                0 <= k < found.len() && (#[trigger] found[k]).offset <= rec.offset < found[k].offset
                    + 12 + 2 * found[k].header.palette_entries + 2 * found[k].header.rle_words
        }),
{
    let off = entry.clean_bina_offset;
    let bina = file.subrange(bina_abs_offset, bina_abs_offset + size);
    packed_pictures_are_found_again(file, bina_abs_offset, size, entry, pixels, record);
    only_headers_are_stripped(bina);
    let clean = replaced(clean_section(bina), off as int, record);
    assert(clean.subrange(off as int, off + record.len()) =~= record);
    packed_pictures_are_recognised(clean, off, entry, pixels);
    every_picture_is_found(clean, scan_start, min_area, packed_record(entry, off, pixels));
}

} // verus!
