//! Encoding changed pictures and writing them back into a firmware file.

use vstd::prelude::*;

use crate::container::{first_tagged, parse_nux_dfu, u16_le, u32_le, Firmware};
use crate::depacketize::{
    clean_bina_rel_to_original_abs, original_abs, places_are_in_order,
    places_rise_by_a_header_at_most, FRAME_HEADER_SIZE,
};
use crate::error::Error;
use crate::export::ManifestImageEntry;
use crate::firmware::{firmware_reads, firmware_refused};
use crate::hash::{hex_text, sha512_digest, sha512_hex};
use crate::image_format::{
    depth_failure, depth_valid, header_at, lemma_pow2_16, lemma_stored_index, lemma_u16_product,
    validate_bpp_and_palette, ImageRecordHeader, IMAGE_HEADER_SIZE,
};
use crate::palette::{
    build_palette, colors_of, indices_of, indices_point_into_the_palette, nearest, palette_of,
};
use crate::raster::{Raster, RgbImage};
use crate::rle::{all_fit, encoded_indices_are_read_back, rle_encode, runs_of};

verus! {

/// The pixels of the stored picture that `image` shows upright, row by row: what stands in row
/// `x` of column `y` is stored in column `x` of row `y`.
pub open spec fn source_pixels(image: Raster, width: nat, height: nat) -> Seq<[u8; 3]> {
    Seq::new(
        width * height,
        |s: int| image.pixel(s / (width as int), s % (width as int)),
    )
}

/// What an image of the wrong dimensions is refused with.
pub open spec fn dimension_failure(image: Raster, entry: ManifestImageEntry) -> Option<Error> {
    if image.width == entry.height && image.height == entry.width {
        None
    } else {
        Some(
            Error::DimensionMismatch {
                expected_width: entry.height as u32,
                expected_height: entry.width as u32,
                width: image.width as u32,
                height: image.height as u32,
            },
        )
    }
}

/// Takes the pixels of a picture out of the image that shows it upright.
pub fn extract_source_pixels(png: &RgbImage, entry: &ManifestImageEntry) -> (r: Result<
    Vec<[u8; 3]>,
    Error,
>)
    ensures
        match r {
            Ok(pixels) => dimension_failure(png@, *entry) is None && pixels@ == source_pixels(
                png@,
                entry.width as nat,
                entry.height as nat,
            ),
            Err(e) => dimension_failure(png@, *entry) == Some(e),
        },
{
    let src_w = entry.width as u32;
    let src_h = entry.height as u32;
    if png.width() != src_h || png.height() != src_w {
        return Err(
            Error::DimensionMismatch {
                expected_width: src_h,
                expected_height: src_w,
                width: png.width(),
                height: png.height(),
            },
        );
    }
    let ghost all = source_pixels(png@, entry.width as nat, entry.height as nat);
    let mut pixels: Vec<[u8; 3]> = Vec::new();
    let mut y: u32 = 0;
    while y < src_h
        invariant
            src_w == entry.width == png@.height,
            src_h == entry.height == png@.width,
            y <= src_h,
            all == source_pixels(png@, entry.width as nat, entry.height as nat),
            pixels@.len() == y * src_w,
            forall|s: int| 0 <= s < pixels@.len() ==> #[trigger] pixels@[s] == all[s],
        decreases src_h - y,
    {
        let mut x: u32 = 0;
        while x < src_w
            invariant
                src_w == entry.width == png@.height,
                src_h == entry.height == png@.width,
                y < src_h,
                x <= src_w,
                all == source_pixels(png@, entry.width as nat, entry.height as nat),
                pixels@.len() == y * src_w + x,
                forall|s: int| 0 <= s < pixels@.len() ==> #[trigger] pixels@[s] == all[s],
            decreases src_w - x,
        {
            proof {
                let s = pixels@.len() as int;
                lemma_stored_index(x as int, y as int, src_w as int, src_h as int);
                assert(all[s] == png@.pixel(y as int, x as int));
            }
            pixels.push(png.get_pixel(y, x));
            x += 1;
        }
        assert((y + 1) * src_w == y * src_w + src_w) by (nonlinear_arith);
        y += 1;
    }
    assert(src_h * src_w == src_w * src_h) by (nonlinear_arith);
    assert(pixels@ =~= all);
    Ok(pixels)
}

/// The palette that `pixels` are encoded with.
pub open spec fn encoded_palette(pixels: Seq<[u8; 3]>, palette_entries: u16) -> Seq<u16> {
    palette_of(colors_of(pixels), palette_entries as nat)
}

/// The palette index of each of `pixels`.
pub open spec fn encoded_indices(pixels: Seq<[u8; 3]>, palette_entries: u16) -> Seq<u8> {
    indices_of(encoded_palette(pixels, palette_entries), colors_of(pixels))
}

/// The words that `pixels` are encoded as.
pub open spec fn encoded_words(pixels: Seq<[u8; 3]>, bpp: u16, palette_entries: u16) -> Seq<u16> {
    runs_of(encoded_indices(pixels, palette_entries), bpp as nat)
}

/// The header that the picture of `entry` gets when it shows `pixels`.
pub open spec fn encoded_header(
    entry: ManifestImageEntry,
    pixels: Seq<[u8; 3]>,
) -> ImageRecordHeader {
    ImageRecordHeader {
        bpp: entry.bpp,
        width: entry.width,
        height: entry.height,
        palette_entries: entry.palette_entries,
        rle_words: encoded_words(pixels, entry.bpp, entry.palette_entries).len() as u32,
    }
}

/// `bytes` hold, from `at` on, a picture with this header, this palette and these words.
pub open spec fn record_holds(
    bytes: Seq<u8>,
    at: int,
    header: ImageRecordHeader,
    palette: Seq<u16>,
    words: Seq<u16>,
) -> bool {
    let palette_at = at + IMAGE_HEADER_SIZE;
    let words_at = palette_at + palette.len() * 2;
    &&& at + header.size() <= bytes.len()
    &&& header_at(bytes, at) == header
    &&& forall|k: int|
        0 <= k < palette.len() ==> #[trigger] u16_le(bytes, palette_at + k * 2) == palette[k]
    &&& forall|i: int|
        0 <= i < words.len() ==> #[trigger] u16_le(bytes, words_at + i * 2) == words[i]
}

/// `bytes` are the record of `entry` for a picture that shows `pixels`: the encoded picture, and
/// zeros up to the size of the record.
pub open spec fn encodes(bytes: Seq<u8>, entry: ManifestImageEntry, pixels: Seq<[u8; 3]>) -> bool {
    let header = encoded_header(entry, pixels);
    &&& bytes.len() == entry.record_size_bytes
    &&& record_holds(
        bytes,
        0,
        header,
        encoded_palette(pixels, entry.palette_entries),
        encoded_words(pixels, entry.bpp, entry.palette_entries),
    )
    &&& forall|i: int| header.size() <= i < bytes.len() ==> #[trigger] bytes[i] == 0
}

/// What encoding `pixels` for `entry` ends with where they take too many bytes.
pub open spec fn size_failure(entry: ManifestImageEntry, pixels: Seq<[u8; 3]>) -> Option<Error> {
    let size = encoded_header(entry, pixels).size();
    if size > entry.record_size_bytes {
        Some(
            Error::RecordTooLarge { encoded_size: size as usize, limit: entry.record_size_bytes },
        )
    } else {
        None
    }
}

/// What encoding `image` for `entry` ends with, if it fails.
pub open spec fn encode_failure(entry: ManifestImageEntry, image: Raster) -> Option<Error> {
    if depth_failure(entry.bpp, entry.palette_entries) is Some {
        depth_failure(entry.bpp, entry.palette_entries)
    } else if dimension_failure(image, entry) is Some {
        dimension_failure(image, entry)
    } else {
        size_failure(entry, source_pixels(image, entry.width as nat, entry.height as nat))
    }
}

fn push_u16_le(out: &mut Vec<u8>, v: u16)
    ensures
        final(out)@.len() == old(out)@.len() + 2,
        final(out)@.take(old(out)@.len() as int) == old(out)@,
        u16_le(final(out)@, old(out)@.len() as int) == v,
{
    let ghost before = out@;
    out.push((v % 0x100) as u8);
    out.push((v / 0x100) as u8);
    assert(out@.take(before.len() as int) =~= before);
}

fn push_u32_le(out: &mut Vec<u8>, v: u32)
    ensures
        final(out)@.len() == old(out)@.len() + 4,
        final(out)@.take(old(out)@.len() as int) == old(out)@,
        u32_le(final(out)@, old(out)@.len() as int) == v,
{
    let ghost before = out@;
    out.push((v % 0x100) as u8);
    out.push((v / 0x100 % 0x100) as u8);
    out.push((v / 0x1_0000 % 0x100) as u8);
    out.push((v / 0x100_0000) as u8);
    assert(out@.take(before.len() as int) =~= before);
}

proof fn lemma_reads_kept(before: Seq<u8>, after: Seq<u8>)
    requires
        before.len() <= after.len(),
        after.take(before.len() as int) == before,
    ensures
        forall|p: int|
            0 <= p && p + 2 <= before.len() ==> #[trigger] u16_le(after, p) == u16_le(before, p),
        forall|p: int|
            0 <= p && p + 4 <= before.len() ==> #[trigger] u32_le(after, p) == u32_le(before, p),
{
    assert forall|i: int| 0 <= i < before.len() implies #[trigger] after[i] == before[i] by {
        assert(after.take(before.len() as int)[i] == after[i]);
    }
}

/// Every index points into the palette, and so fits the colour depth.
pub(crate) proof fn lemma_indices_fit(pixels: Seq<[u8; 3]>, bpp: u16, palette_entries: u16)
    requires
        depth_valid(bpp, palette_entries),
    ensures
        forall|i: int|
            0 <= i < pixels.len() ==> {
                &&& (#[trigger] encoded_indices(pixels, palette_entries)[i]) < palette_entries
                &&& encoded_indices(pixels, palette_entries)[i] == nearest(
                    encoded_palette(pixels, palette_entries),
                    colors_of(pixels)[i],
                )
            },
        all_fit(encoded_indices(pixels, palette_entries), bpp as nat),
{
    lemma_pow2_16(bpp as nat);
    let palette = encoded_palette(pixels, palette_entries);
    let colors = colors_of(pixels);
    assert forall|i: int| 0 <= i < pixels.len() implies (#[trigger] encoded_indices(
        pixels,
        palette_entries,
    )[i]) < palette_entries && encoded_indices(pixels, palette_entries)[i] == nearest(
        palette,
        colors[i],
    ) by {
        indices_point_into_the_palette(palette, colors[i]);
    }
}

/// Encodes the pixels of a picture as a record of `entry`.
pub fn encode_pixels(entry: &ManifestImageEntry, pixels: &[[u8; 3]]) -> (r: Result<Vec<u8>, Error>)
    requires
        depth_valid(entry.bpp, entry.palette_entries),
        pixels@.len() == entry.width * entry.height,
    ensures
        match r {
            Ok(bytes) => size_failure(*entry, pixels@) is None && encodes(bytes@, *entry, pixels@),
            Err(e) => size_failure(*entry, pixels@) == Some(e),
        },
{
    let ghost header = encoded_header(*entry, pixels@);
    let palette_entries = entry.palette_entries as usize;
    let (palette, indices) = build_palette(pixels, palette_entries);
    proof {
        lemma_indices_fit(pixels@, entry.bpp, entry.palette_entries);
        assert(indices@ == encoded_indices(pixels@, entry.palette_entries));
        encoded_indices_are_read_back(indices@, entry.bpp as nat);
        lemma_u16_product(entry.width, entry.height);
    }
    let rle_words = rle_encode(indices.as_slice(), entry.bpp)?;
    let rle_word_count = rle_words.len();

    let mut out: Vec<u8> = Vec::new();
    push_u16_le(&mut out, entry.bpp);
    let ghost s1 = out@;
    push_u16_le(&mut out, entry.width);
    proof {
        lemma_reads_kept(s1, out@);
    }
    let ghost s2 = out@;
    push_u16_le(&mut out, entry.height);
    proof {
        lemma_reads_kept(s2, out@);
    }
    let ghost s3 = out@;
    push_u16_le(&mut out, entry.palette_entries);
    proof {
        lemma_reads_kept(s3, out@);
    }
    let ghost s4 = out@;
    push_u32_le(&mut out, rle_word_count as u32);
    proof {
        lemma_reads_kept(s4, out@);
        assert(header_at(out@, 0) == header);
    }

    let mut k: usize = 0;
    while k < palette.len()
        invariant
            k <= palette@.len(),
            out@.len() == IMAGE_HEADER_SIZE + k * 2,
            header_at(out@, 0) == header,
            forall|j: int|
                0 <= j < k ==> #[trigger] u16_le(out@, IMAGE_HEADER_SIZE + j * 2) == palette@[j],
        decreases palette@.len() - k,
    {
        let ghost before = out@;
        push_u16_le(&mut out, palette[k]);
        proof {
            lemma_reads_kept(before, out@);
        }
        k += 1;
    }
    let ghost words_at = out@.len() as int;
    let mut n: usize = 0;
    while n < rle_words.len()
        invariant
            n <= rle_words@.len(),
            words_at == IMAGE_HEADER_SIZE + palette@.len() * 2,
            out@.len() == words_at + n * 2,
            header_at(out@, 0) == header,
            forall|j: int|
                0 <= j < palette@.len() ==> #[trigger] u16_le(out@, IMAGE_HEADER_SIZE + j * 2)
                    == palette@[j],
            forall|j: int|
                0 <= j < n ==> #[trigger] u16_le(out@, words_at + j * 2) == rle_words@[j],
        decreases rle_words@.len() - n,
    {
        let ghost before = out@;
        push_u16_le(&mut out, rle_words[n]);
        proof {
            lemma_reads_kept(before, out@);
        }
        n += 1;
    }
    assert(out@.len() == header.size());
    let encoded_size = out.len();
    if encoded_size > entry.record_size_bytes {
        return Err(Error::RecordTooLarge { encoded_size, limit: entry.record_size_bytes });
    }
    let ghost encoded = out@;
    let mut padding = entry.record_size_bytes - encoded_size;
    assert(out@.take(encoded.len() as int) =~= encoded);
    while padding > 0
        invariant
            out@.len() + padding == entry.record_size_bytes,
            encoded.len() <= out@.len(),
            out@.take(encoded.len() as int) == encoded,
            forall|i: int| encoded.len() <= i < out@.len() ==> #[trigger] out@[i] == 0,
        decreases padding,
    {
        let ghost before = out@;
        out.push(0);
        assert(out@.take(encoded.len() as int) =~= before.take(encoded.len() as int));
        padding -= 1;
    }
    proof {
        lemma_reads_kept(encoded, out@);
    }
    Ok(out)
}

/// Encodes the image of a picture as a record of `entry`.
pub fn encode_record(entry: &ManifestImageEntry, png: &RgbImage) -> (r: Result<Vec<u8>, Error>)
    ensures
        match r {
            Ok(bytes) => encode_failure(*entry, png@) is None && encodes(
                bytes@,
                *entry,
                source_pixels(png@, entry.width as nat, entry.height as nat),
            ),
            Err(e) => encode_failure(*entry, png@) == Some(e),
        },
{
    validate_bpp_and_palette(entry.bpp, entry.palette_entries)?;
    let pixels = extract_source_pixels(png, entry)?;
    encode_pixels(entry, pixels.as_slice())
}

/// The file with `bytes` put at the places of the clean section from `clean_rel` on.
pub open spec fn written(
    file: Seq<u8>,
    clean_rel: int,
    bytes: Seq<u8>,
    bina_abs_offset: int,
) -> Seq<u8>
    decreases bytes.len(),
{
    if bytes.len() == 0 {
        file
    } else {
        written(file, clean_rel, bytes.drop_last(), bina_abs_offset).update(
            original_abs(clean_rel + bytes.len() - 1, bina_abs_offset),
            bytes.last(),
        )
    }
}

/// Whether the first `count` bytes of the clean section from `clean_rel` on have their places
/// inside a file of `size` bytes.
pub open spec fn places_inside(size: int, clean_rel: int, count: int, bina_abs_offset: int) -> bool {
    forall|i: int|
        0 <= i < count ==> #[trigger] original_abs(clean_rel + i, bina_abs_offset) < size
}

/// Whether the places of `count` bytes of the clean section from `clean_rel` on can be counted,
/// up to the first one outside a file of `size` bytes.
pub open spec fn places_countable(
    size: int,
    clean_rel: int,
    count: int,
    bina_abs_offset: int,
) -> bool {
    forall|i: int|
        0 <= i < count && places_inside(size, clean_rel, i, bina_abs_offset)
            ==> #[trigger] original_abs(clean_rel + i, bina_abs_offset) <= usize::MAX
}

/// The places of a record can be counted if that of its first byte can and the size of the file
/// leaves room for the header of a frame.
pub proof fn the_first_place_decides(size: int, clean_rel: int, count: int, bina_abs_offset: int)
    requires
        0 <= clean_rel,
        original_abs(clean_rel, bina_abs_offset) <= usize::MAX,
        size + FRAME_HEADER_SIZE <= usize::MAX,
    ensures
        places_countable(size, clean_rel, count, bina_abs_offset),
{
    assert forall|i: int|
        0 <= i < count && places_inside(size, clean_rel, i, bina_abs_offset) implies
        #[trigger] original_abs(clean_rel + i, bina_abs_offset) <= usize::MAX by {
        if i > 0 {
            assert(original_abs(clean_rel + (i - 1), bina_abs_offset) < size);
            places_rise_by_a_header_at_most(clean_rel + (i - 1), bina_abs_offset);
        }
    }
}

/// Writes the bytes of a record at their places in the firmware file.
///
/// Where a byte has its place outside the file, those before it have been written.
pub fn patch_record(
    firmware: &mut [u8],
    entry: &ManifestImageEntry,
    record_bytes: &[u8],
    bina_abs_offset: usize,
) -> (r: Result<(), Error>)
    requires
        record_bytes@.len() == entry.record_size_bytes ==> places_countable(
            old(firmware)@.len() as int,
            entry.clean_bina_offset as int,
            record_bytes@.len() as int,
            bina_abs_offset as int,
        ),
    ensures
        match r {
            Ok(()) => {
                &&& record_bytes@.len() == entry.record_size_bytes
                &&& places_inside(
                    old(firmware)@.len() as int,
                    entry.clean_bina_offset as int,
                    record_bytes@.len() as int,
                    bina_abs_offset as int,
                )
                &&& final(firmware)@ == written(
                    old(firmware)@,
                    entry.clean_bina_offset as int,
                    record_bytes@,
                    bina_abs_offset as int,
                )
            },
            Err(Error::RecordLengthMismatch { length, record_size }) => {
                &&& length == record_bytes@.len()
                &&& record_size == entry.record_size_bytes
                &&& length != record_size
                &&& final(firmware)@ == old(firmware)@
            },
            Err(Error::PatchOutOfBounds { clean_rel, abs }) => {
                let n = clean_rel - entry.clean_bina_offset;
                &&& record_bytes@.len() == entry.record_size_bytes
                &&& 0 <= n < record_bytes@.len()
                &&& abs == original_abs(clean_rel as int, bina_abs_offset as int)
                &&& abs >= old(firmware)@.len()
                &&& places_inside(
                    old(firmware)@.len() as int,
                    entry.clean_bina_offset as int,
                    n,
                    bina_abs_offset as int,
                )
                &&& final(firmware)@ == written(
                    old(firmware)@,
                    entry.clean_bina_offset as int,
                    record_bytes@.take(n),
                    bina_abs_offset as int,
                )
            },
            Err(_) => false,
        },
{
    let length = record_bytes.len();
    if length != entry.record_size_bytes {
        return Err(
            Error::RecordLengthMismatch { length, record_size: entry.record_size_bytes },
        );
    }
    let ghost file = firmware@;
    let ghost start = entry.clean_bina_offset as int;
    let ghost base = bina_abs_offset as int;
    let size = firmware.len();
    let mut i: usize = 0;
    assert(record_bytes@.take(0) =~= Seq::empty());
    while i < length
        invariant
            length == record_bytes@.len(),
            length == entry.record_size_bytes,
            file == old(firmware)@,
            start == entry.clean_bina_offset,
            base == bina_abs_offset,
            size == file.len(),
            firmware@.len() == size,
            i <= length,
            places_countable(size as int, start, length as int, base),
            places_inside(size as int, start, i as int, base),
            firmware@ == written(file, start, record_bytes@.take(i as int), base),
        decreases length - i,
    {
        assert(original_abs(start + i, base) <= usize::MAX);
        let clean_rel = entry.clean_bina_offset + i;
        let abs = clean_bina_rel_to_original_abs(clean_rel, bina_abs_offset);
        if abs >= size {
            return Err(Error::PatchOutOfBounds { clean_rel, abs });
        }
        proof {
            assert(record_bytes@.take(i + 1).drop_last() =~= record_bytes@.take(i as int));
        }
        firmware[abs] = record_bytes[i];
        i += 1;
    }
    assert(record_bytes@.take(i as int) =~= record_bytes@);
    Ok(())
}

/// What came of the pictures of a manifest.
#[derive(Debug)]
pub struct PackSummary {
    pub total: usize,
    pub skipped_unchanged: usize,
    pub patched: usize,
}

/// Checks that colour depth and palette size go together in every entry. Otherwise the first
/// entry in which they do not is given, with the failure.
pub fn validate_entries(images: &[ManifestImageEntry]) -> (r: Result<(), (usize, Error)>)
    ensures
        match r {
            Ok(()) => forall|i: int|
                0 <= i < images@.len() ==> depth_valid(
                    (#[trigger] images@[i]).bpp,
                    images@[i].palette_entries,
                ),
            Err((k, e)) => {
                &&& k < images@.len()
                &&& depth_failure(images@[k as int].bpp, images@[k as int].palette_entries) == Some(
                    e,
                )
                &&& forall|i: int|
                    0 <= i < k ==> depth_valid(
                        (#[trigger] images@[i]).bpp,
                        images@[i].palette_entries,
                    )
            },
        },
{
    let size = images.len();
    let mut i: usize = 0;
    while i < size
        invariant
            size == images@.len(),
            i <= size,
            forall|j: int|
                0 <= j < i ==> depth_valid(
                    (#[trigger] images@[j]).bpp,
                    images@[j].palette_entries,
                ),
        decreases size - i,
    {
        match validate_bpp_and_palette(images[i].bpp, images[i].palette_entries) {
            Ok(()) => {},
            Err(e) => return Err((i, e)),
        }
        i += 1;
    }
    Ok(())
}

/// A firmware file into which pictures are being packed.
#[derive(Debug)]
pub struct Packer {
    pub firmware: Vec<u8>,
    pub bina_abs_offset: usize,
    pub skipped_unchanged: usize,
    pub patched: usize,
}

/// `after` counts one picture more than `before`, as skipped or as packed.
pub open spec fn counts_one_more(before: Packer, after: Packer) -> bool {
    ||| {
        &&& after.skipped_unchanged == before.skipped_unchanged + 1
        &&& after.patched == before.patched
    }
    ||| {
        &&& after.skipped_unchanged == before.skipped_unchanged
        &&& after.patched == before.patched + 1
    }
}

/// Where packing comes to the end of a manifest, the pictures skipped and those packed are
/// together as many as the entries: `steps` are the states before the first entry and after
/// each one.
pub proof fn every_picture_is_counted(data: Seq<u8>, steps: Seq<Packer>)
    requires
        steps.len() > 0,
        ready(data, steps[0]),
        forall|i: int|
            0 <= i < steps.len() - 1 ==> counts_one_more(#[trigger] steps[i], steps[i + 1]),
    ensures
        steps.last().skipped_unchanged + steps.last().patched == steps.len() - 1,
    decreases steps.len(),
{
    if steps.len() > 1 {
        let earlier = steps.drop_last();
        assert forall|i: int| 0 <= i < earlier.len() - 1 implies counts_one_more(
            #[trigger] earlier[i],
            earlier[i + 1],
        ) by {
            assert(counts_one_more(steps[i], steps[i + 1]));
        }
        every_picture_is_counted(data, earlier);
        let n = steps.len() - 2;
        assert(counts_one_more(steps[n], steps[n + 1]));
    }
}

/// `packer` is ready to pack into the firmware file `data`: nothing is packed yet, and the
/// first section of the name BINA is found.
pub open spec fn ready(data: Seq<u8>, packer: Packer) -> bool {
    &&& packer.firmware@ == data
    &&& packer.skipped_unchanged == 0
    &&& packer.patched == 0
    &&& exists|fw: Firmware, i: int|
        {
            &&& #[trigger] firmware_reads(data, fw)
            &&& #[trigger] first_tagged(fw.sections@, "BINA"@, i)
            &&& packer.bina_abs_offset == fw.sections@[i].offset
        }
}

impl Packer {
    /// Begins to pack into a firmware file.
    pub fn new(firmware: Vec<u8>) -> (r: Result<Packer, Error>)
        ensures
            match r {
                Ok(packer) => ready(firmware@, packer),
                Err(Error::BinaNotFound) => exists|fw: Firmware| #[trigger]
                    firmware_reads(firmware@, fw) && forall|i: int|
                        0 <= i < fw.sections@.len() ==> (#[trigger] fw.sections@[i]).tag@
                            != "BINA"@,
                Err(e) => firmware_refused(firmware@, e),
            },
    {
        let fw = match parse_nux_dfu(firmware.as_slice()) {
            Ok(fw) => fw,
            Err(e) => return Err(e),
        };
        assert(firmware_reads(firmware@, fw));
        let bina = match fw.section("BINA") {
            Some(bina) => bina,
            None => return Err(Error::BinaNotFound),
        };
        let ghost place = choose|i: int|
            first_tagged(fw.sections@, "BINA"@, i) && *bina == #[trigger] fw.sections@[i];
        let bina_abs_offset = bina.offset;
        let ghost data = firmware@;
        let packer = Packer { firmware, bina_abs_offset, skipped_unchanged: 0, patched: 0 };
        assert(firmware_reads(data, fw) && first_tagged(fw.sections@, "BINA"@, place));
        assert(ready(data, packer));
        Ok(packer)
    }

    /// Notes the hash of a picture's file, and says whether the picture has changed and is to be
    /// packed. One that has not changed counts as skipped.
    pub fn note_hash(&mut self, entry: &ManifestImageEntry, current_sha512: &String) -> (r: bool)
        requires
            old(self).skipped_unchanged < usize::MAX,
        ensures
            r == (current_sha512@ != entry.sha512@),
            !r ==> counts_one_more(*old(self), *final(self)),
            *final(self) == if r {
                *old(self)
            } else {
                Packer {
                    skipped_unchanged: (old(self).skipped_unchanged + 1) as usize,
                    ..*old(self)
                }
            },
    {
        if *current_sha512 == entry.sha512 {
            self.skipped_unchanged = self.skipped_unchanged + 1;
            return false;
        }
        true
    }

    /// Looks at a picture's file, and says whether the picture has changed and is to be packed.
    /// One that has not changed counts as skipped.
    pub fn examine(&mut self, entry: &ManifestImageEntry, png_file: &[u8]) -> (r: bool)
        requires
            old(self).skipped_unchanged < usize::MAX,
        ensures
            r == (hex_text(sha512_digest(png_file@)) != entry.sha512@),
            !r ==> counts_one_more(*old(self), *final(self)),
            *final(self) == if r {
                *old(self)
            } else {
                Packer {
                    skipped_unchanged: (old(self).skipped_unchanged + 1) as usize,
                    ..*old(self)
                }
            },
    {
        let current_sha512 = sha512_hex(png_file);
        self.note_hash(entry, &current_sha512)
    }

    /// Packs a changed picture: encodes it and writes its record.
    ///
    /// Where it cannot be encoded, nothing is changed. Where its record does not lie in the file,
    /// the bytes that do have been written.
    pub fn patch(&mut self, entry: &ManifestImageEntry, png: &RgbImage) -> (r: Result<(), Error>)
        requires
            old(self).patched < usize::MAX,
            encode_failure(*entry, png@) is None ==> places_countable(
                old(self).firmware@.len() as int,
                entry.clean_bina_offset as int,
                entry.record_size_bytes as int,
                old(self).bina_abs_offset as int,
            ),
        ensures
            r is Ok ==> counts_one_more(*old(self), *final(self)),
            final(self).bina_abs_offset == old(self).bina_abs_offset,
            final(self).skipped_unchanged == old(self).skipped_unchanged,
            final(self).patched == old(self).patched + if r is Ok {
                1int
            } else {
                0
            },
            match r {
                Ok(()) => encode_failure(*entry, png@) is None && exists|record: Seq<u8>|
                    {
                        &&& #[trigger] encodes(
                            record,
                            *entry,
                            source_pixels(png@, entry.width as nat, entry.height as nat),
                        )
                        &&& places_inside(
                            old(self).firmware@.len() as int,
                            entry.clean_bina_offset as int,
                            record.len() as int,
                            old(self).bina_abs_offset as int,
                        )
                        &&& final(self).firmware@ == written(
                            old(self).firmware@,
                            entry.clean_bina_offset as int,
                            record,
                            old(self).bina_abs_offset as int,
                        )
                    },
                Err(Error::PatchOutOfBounds { clean_rel, abs }) => {
                    let n = clean_rel - entry.clean_bina_offset;
                    &&& encode_failure(*entry, png@) is None
                    &&& 0 <= n < entry.record_size_bytes
                    &&& abs == original_abs(clean_rel as int, old(self).bina_abs_offset as int)
                    &&& abs >= old(self).firmware@.len()
                    &&& places_inside(
                        old(self).firmware@.len() as int,
                        entry.clean_bina_offset as int,
                        n,
                        old(self).bina_abs_offset as int,
                    )
                    &&& exists|record: Seq<u8>|
                        {
                            &&& #[trigger] encodes(
                                record,
                                *entry,
                                source_pixels(png@, entry.width as nat, entry.height as nat),
                            )
                            &&& final(self).firmware@ == written(
                                old(self).firmware@,
                                entry.clean_bina_offset as int,
                                record.take(n),
                                old(self).bina_abs_offset as int,
                            )
                        }
                },
                Err(e) => encode_failure(*entry, png@) == Some(e) && final(self).firmware@ == old(
                    self,
                ).firmware@,
            },
    {
        let record_bytes = match encode_record(entry, png) {
            Ok(bytes) => bytes,
            Err(e) => return Err(e),
        };
        match patch_record(
            self.firmware.as_mut_slice(),
            entry,
            record_bytes.as_slice(),
            self.bina_abs_offset,
        ) {
            Ok(()) => {},
            Err(e) => return Err(e),
        }
        self.patched = self.patched + 1;
        Ok(())
    }

    /// The firmware file with the pictures packed, and what came of the `total` pictures of the
    /// manifest: each of them was skipped or packed.
    pub fn finish(self, total: usize) -> (r: (Vec<u8>, PackSummary))
        requires
            total == self.skipped_unchanged + self.patched,
        ensures
            r.0@ == self.firmware@,
            r.1.total == r.1.skipped_unchanged + r.1.patched,
            r.1 == (PackSummary {
                total,
                skipped_unchanged: self.skipped_unchanged,
                patched: self.patched,
            }),
    {
        let summary = PackSummary {
            total,
            skipped_unchanged: self.skipped_unchanged,
            patched: self.patched,
        };
        (self.firmware, summary)
    }
}

/// An image is refused for its dimensions exactly where its columns are not as many as the stored
/// picture has rows, or its rows not as many as that has columns.
pub proof fn dimensions_are_checked_exactly(image: Raster, entry: ManifestImageEntry)
    ensures
        dimension_failure(image, entry) is None <==> image.width == entry.height && image.height
            == entry.width,
        image.width <= u32::MAX && image.height <= u32::MAX ==> match dimension_failure(
            image,
            entry,
        ) {
            None => true,
            Some(Error::DimensionMismatch { expected_width, expected_height, width, height }) => {
                &&& expected_width == entry.height
                &&& expected_height == entry.width
                &&& width == image.width
                &&& height == image.height
            },
            Some(_) => false,
        },
{
}

/// A picture is refused for its size exactly where header, palette and words take more bytes than
/// the record has.
pub proof fn sizes_are_checked_exactly(entry: ManifestImageEntry, pixels: Seq<[u8; 3]>)
    requires
        depth_valid(entry.bpp, entry.palette_entries),
        pixels.len() == entry.width * entry.height,
    ensures
        size_failure(entry, pixels) is None <==> 12 + 2 * entry.palette_entries + 2
            * encoded_words(pixels, entry.bpp, entry.palette_entries).len()
            <= entry.record_size_bytes,
        match size_failure(entry, pixels) {
            None => true,
            Some(Error::RecordTooLarge { encoded_size, limit }) => {
                &&& limit == entry.record_size_bytes
                &&& encoded_size == (12 + 2 * entry.palette_entries + 2 * encoded_words(
                    pixels,
                    entry.bpp,
                    entry.palette_entries,
                ).len()) as usize
            },
            Some(_) => false,
        },
{
    lemma_indices_fit(pixels, entry.bpp, entry.palette_entries);
    lemma_pow2_16(entry.bpp as nat);
    lemma_u16_product(entry.width, entry.height);
    encoded_indices_are_read_back(
        encoded_indices(pixels, entry.palette_entries),
        entry.bpp as nat,
    );
}

/// Each pixel of a stored picture is taken from its own place in the image, byte by byte.
pub proof fn pixels_are_taken_from_columns(
    image: Raster,
    width: nat,
    height: nat,
    x: int,
    y: int,
)
    requires
        0 <= x < width,
        0 <= y < height,
    ensures
        source_pixels(image, width, height).len() == width * height,
        ({
            let pixel = source_pixels(image, width, height)[y * width + x];
            let at = 3 * (x * image.width + y);
            &&& pixel[0] == image.bytes[at]
            &&& pixel[1] == image.bytes[at + 1]
            &&& pixel[2] == image.bytes[at + 2]
        }),
{
    lemma_stored_index(x, y, width as int, height as int);
    assert(source_pixels(image, width, height)[y * width + x] == image.pixel(y, x));
}

/// Every byte of a record is written at its place, however many there are, and no other byte of
/// the file changes.
pub proof fn every_byte_is_written(
    file: Seq<u8>,
    clean_rel: int,
    bytes: Seq<u8>,
    bina_abs_offset: int,
    i: int,
    p: int,
)
    requires
        0 <= clean_rel,
        0 <= bina_abs_offset,
        places_inside(file.len() as int, clean_rel, bytes.len() as int, bina_abs_offset),
    ensures
        written(file, clean_rel, bytes, bina_abs_offset).len() == file.len(),
        0 <= i < bytes.len() ==> written(
            file,
            clean_rel,
            bytes,
            bina_abs_offset,
        )[original_abs(clean_rel + i, bina_abs_offset)] == bytes[i],
        0 <= p < file.len() && (forall|k: int|
            0 <= k < bytes.len() ==> #[trigger] original_abs(clean_rel + k, bina_abs_offset) != p)
            ==> written(file, clean_rel, bytes, bina_abs_offset)[p] == file[p],
    decreases bytes.len(),
{
    if bytes.len() > 0 {
        let shorter = bytes.drop_last();
        let n = bytes.len() - 1;
        assert(places_inside(file.len() as int, clean_rel, n, bina_abs_offset)) by {
            assert forall|k: int| 0 <= k < n implies #[trigger] original_abs(
                clean_rel + k,
                bina_abs_offset,
            ) < file.len() by {}
        }
        every_byte_is_written(file, clean_rel, shorter, bina_abs_offset, i, p);
        assert(original_abs(clean_rel + n, bina_abs_offset) < file.len());
        lemma_place_not_negative(clean_rel + n, bina_abs_offset);
        if 0 <= i < n {
            places_are_in_order(clean_rel + i, clean_rel + n, bina_abs_offset);
            lemma_place_not_negative(clean_rel + i, bina_abs_offset);
        }
        assert(clean_rel + bytes.len() - 1 == clean_rel + n);
    }
}

proof fn lemma_place_not_negative(j: int, bina_abs_offset: int)
    requires
        0 <= j,
        0 <= bina_abs_offset,
    ensures
        0 <= original_abs(j, bina_abs_offset),
{
    if j > 0 {
        places_are_in_order(0, j, bina_abs_offset);
    }
}

/// A record holds, one after the other, depth, width, height, number of palette entries, number of
/// words, the palette and the words, and zeros behind them.
pub proof fn records_are_laid_out(
    bytes: Seq<u8>,
    entry: ManifestImageEntry,
    pixels: Seq<[u8; 3]>,
    k: int,
    i: int,
)
    requires
        encodes(bytes, entry, pixels),
        depth_valid(entry.bpp, entry.palette_entries),
        pixels.len() == entry.width * entry.height,
    ensures
        ({
            let palette = encoded_palette(pixels, entry.palette_entries);
            let words = encoded_words(pixels, entry.bpp, entry.palette_entries);
            let end = 12 + 2 * entry.palette_entries + 2 * words.len();
            &&& bytes.len() == entry.record_size_bytes
            &&& u16_le(bytes, 0) == entry.bpp
            &&& u16_le(bytes, 2) == entry.width
            &&& u16_le(bytes, 4) == entry.height
            &&& u16_le(bytes, 6) == entry.palette_entries
            &&& u32_le(bytes, 8) == words.len()
            &&& end <= bytes.len()
            &&& 0 <= k < entry.palette_entries ==> u16_le(bytes, 12 + 2 * k) == palette[k]
            &&& 0 <= k < words.len() ==> u16_le(bytes, 12 + 2 * entry.palette_entries + 2 * k)
                == words[k]
            &&& end <= i < bytes.len() ==> bytes[i] == 0
        }),
{
    let palette = encoded_palette(pixels, entry.palette_entries);
    let words = encoded_words(pixels, entry.bpp, entry.palette_entries);
    lemma_indices_fit(pixels, entry.bpp, entry.palette_entries);
    lemma_pow2_16(entry.bpp as nat);
    lemma_u16_product(entry.width, entry.height);
    encoded_indices_are_read_back(
        encoded_indices(pixels, entry.palette_entries),
        entry.bpp as nat,
    );
    let palette_at = 0 + IMAGE_HEADER_SIZE;
    let runs_at = palette_at + palette.len() * 2;
    if 0 <= k < palette.len() {
        assert(u16_le(bytes, palette_at + k * 2) == palette[k]);
    }
    if 0 <= k < words.len() {
        assert(u16_le(bytes, runs_at + k * 2) == words[k]);
    }
}

} // verus!
