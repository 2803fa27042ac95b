//! The manifest of extracted pictures, and the names of the files.

use vstd::prelude::*;

use crate::container::{Firmware, SectionEntry};
use crate::depacketize::{clean_bina_rel_to_original_abs, original_abs, places_count_headers};
use crate::image_format::ImageRecord;
use crate::text::{
    decimal, hexadecimal, lemma_regroup, names_tell_their_numbers, push_decimal, push_hexadecimal,
};

verus! {

/// What the manifest says of one picture.
#[derive(Debug)]
pub struct ManifestImageEntry {
    pub index: usize,
    pub png: String,
    pub clean_bina_offset: usize,
    pub clean_abs_offset: usize,
    pub original_abs_offset: usize,
    pub width: u16,
    pub height: u16,
    pub output_width: u16,
    pub output_height: u16,
    pub bpp: u16,
    pub palette_entries: u16,
    pub rle_words: u32,
    pub record_size_bytes: usize,
    pub sha512: String,
}

/// What the manifest says of the firmware as a whole.
#[derive(Debug)]
pub struct ManifestSummary {
    pub firmware_product: String,
    pub firmware_version: String,
    pub sections: Vec<String>,
    pub clean_bina_size: usize,
    pub image_count: usize,
    pub small_count: usize,
    pub large_count: usize,
    pub large_threshold: usize,
}

/// The manifest of a set of extracted pictures.
#[derive(Debug)]
pub struct Manifest {
    pub summary: ManifestSummary,
    pub images: Vec<ManifestImageEntry>,
}

/// The name of the file that a picture goes to.
pub open spec fn png_name(
    index: nat,
    clean_abs: nat,
    original_abs: nat,
    record: ImageRecord,
) -> Seq<char> {
    "img_"@ + decimal(index, 4) + "_clean_"@ + hexadecimal(clean_abs, 8) + "_orig_"@ + hexadecimal(
        original_abs,
        8,
    ) + "_"@ + decimal(record.header.height as nat, 0) + "x"@ + decimal(
        record.header.width as nat,
        0,
    ) + "_bpp"@ + decimal(record.header.bpp as nat, 0) + "_pal"@ + decimal(
        record.header.palette_entries as nat,
        0,
    ) + ".png"@
}

/// The name of the file that a picture goes to.
pub fn png_filename(
    index: usize,
    clean_abs: usize,
    original_abs: usize,
    record: &ImageRecord,
) -> (r: String)
    ensures
        r@ == png_name(index as nat, clean_abs as nat, original_abs as nat, *record),
{
    let (width, height) = record.output_dimensions();
    let mut name = String::new();
    name.append("img_");
    assert(name@ =~= "img_"@);
    push_decimal(&mut name, index as u64, 4);
    name.append("_clean_");
    push_hexadecimal(&mut name, clean_abs as u64, 8);
    name.append("_orig_");
    push_hexadecimal(&mut name, original_abs as u64, 8);
    name.append("_");
    push_decimal(&mut name, width as u64, 0);
    name.append("x");
    push_decimal(&mut name, height as u64, 0);
    name.append("_bpp");
    push_decimal(&mut name, record.header.bpp as u64, 0);
    name.append("_pal");
    push_decimal(&mut name, record.header.palette_entries as u64, 0);
    name.append(".png");
    name
}

/// The directory below `images` that pictures of this area go to.
pub open spec fn subdir_name(area: int, large_threshold: int) -> Seq<char> {
    if area >= large_threshold {
        "large"@
    } else {
        "small"@
    }
}

/// The directory below `images` that pictures of this area go to.
pub fn image_subdir(area: usize, large_threshold: usize) -> (r: &'static str)
    ensures
        r@ == subdir_name(area as int, large_threshold as int),
{
    if area >= large_threshold {
        "large"
    } else {
        "small"
    }
}

/// Whether the places of `record` in clean section and file can be counted.
pub open spec fn places_fit(record: ImageRecord, bina_abs_offset: int) -> bool {
    &&& record.header.size() <= usize::MAX
    &&& original_abs(record.offset as int, bina_abs_offset) <= usize::MAX
}

/// `entry` describes `record`.
pub open spec fn describes(
    entry: ManifestImageEntry,
    index: int,
    record: ImageRecord,
    bina_abs_offset: int,
) -> bool {
    &&& entry.index == index
    &&& entry.clean_bina_offset == record.offset
    &&& entry.clean_abs_offset == bina_abs_offset + record.offset
    &&& entry.original_abs_offset == original_abs(record.offset as int, bina_abs_offset)
    &&& entry.width == record.header.width
    &&& entry.height == record.header.height
    &&& entry.output_width == record.header.height
    &&& entry.output_height == record.header.width
    &&& entry.bpp == record.header.bpp
    &&& entry.palette_entries == record.header.palette_entries
    &&& entry.rle_words == record.header.rle_words
    &&& entry.record_size_bytes == record.header.size()
}

/// The manifest entry of a picture.
pub fn build_manifest_entry(
    index: usize,
    record: &ImageRecord,
    bina_abs_offset: usize,
    png_rel_path: &str,
    sha512: String,
) -> (r: ManifestImageEntry)
    requires
        places_fit(*record, bina_abs_offset as int),
    ensures
        describes(r, index as int, *record, bina_abs_offset as int),
        r.png@ == png_rel_path@,
        r.sha512@ == sha512@,
{
    let clean_bina_offset = record.offset;
    let clean_abs_offset = bina_abs_offset + clean_bina_offset;
    let original_abs_offset = clean_bina_rel_to_original_abs(clean_bina_offset, bina_abs_offset);
    let (output_width, output_height) = record.output_dimensions();
    ManifestImageEntry {
        index,
        png: png_rel_path.to_owned(),
        clean_bina_offset,
        clean_abs_offset,
        original_abs_offset,
        width: record.header.width,
        height: record.header.height,
        output_width,
        output_height,
        bpp: record.header.bpp,
        palette_entries: record.header.palette_entries,
        rle_words: record.header.rle_words,
        record_size_bytes: record.record_size_bytes(),
        sha512,
    }
}

/// The pictures extracted so far.
#[derive(Debug)]
pub struct ImageExport {
    pub images: Vec<ManifestImageEntry>,
    pub small_count: usize,
    pub large_count: usize,
}

/// Where the next picture goes.
#[derive(Debug)]
pub struct ImagePlan {
    pub subdir: &'static str,
    pub filename: String,
    pub png_rel: String,
}

/// Whether a picture counts as large.
pub open spec fn is_large(entry: ManifestImageEntry, large_threshold: int) -> bool {
    entry.width * entry.height >= large_threshold
}

/// The number of large pictures.
pub open spec fn large_images(images: Seq<ManifestImageEntry>, large_threshold: int) -> nat
    decreases images.len(),
{
    if images.len() == 0 {
        0
    } else {
        large_images(images.drop_last(), large_threshold) + if is_large(
            images.last(),
            large_threshold,
        ) {
            1nat
        } else {
            0nat
        }
    }
}

/// The directory of pictures: the paths that are joined to the output directory, one after the
/// other.
pub fn images_dir<'a>(subdir: &'a str) -> (r: [&'a str; 2])
    ensures
        r[0]@ == "images"@,
        r[1]@ == subdir@,
{
    ["images", subdir]
}

/// The place of a picture relative to the output directory.
pub open spec fn png_path(subdir: Seq<char>, filename: Seq<char>) -> Seq<char> {
    "images/"@ + subdir + "/"@ + filename
}

/// The name of the file that the picture `record` goes to as the one of number `index`.
pub open spec fn planned_name(index: int, record: ImageRecord, bina_abs_offset: int) -> Seq<char> {
    png_name(
        index as nat,
        (bina_abs_offset + record.offset) as nat,
        original_abs(record.offset as int, bina_abs_offset) as nat,
        record,
    )
}

impl ImageExport {
    /// The entries are numbered from zero on, and every one is counted as small or as large.
    pub open spec fn consistent(self, large_threshold: int) -> bool {
        &&& forall|i: int| 0 <= i < self.images@.len() ==> (#[trigger] self.images@[i]).index == i
        &&& self.large_count == large_images(self.images@, large_threshold)
        &&& self.small_count + self.large_count == self.images@.len()
    }

    /// No pictures yet.
    pub fn new() -> (r: ImageExport)
        ensures
            r.images@.len() == 0,
            forall|large_threshold: int| r.consistent(large_threshold),
    {
        ImageExport { images: Vec::new(), small_count: 0, large_count: 0 }
    }

    /// Where the next picture goes.
    pub fn plan(&self, record: &ImageRecord, bina_abs_offset: usize, large_threshold: usize) -> (r:
        ImagePlan)
        requires
            original_abs(record.offset as int, bina_abs_offset as int) <= usize::MAX,
        ensures
            r.subdir@ == subdir_name(record.header.pixels(), large_threshold as int),
            r.filename@ == planned_name(
                self.images@.len() as int,
                *record,
                bina_abs_offset as int,
            ),
            r.png_rel@ == png_path(r.subdir@, r.filename@),
    {
        let clean_abs = bina_abs_offset + record.offset;
        let original_abs = clean_bina_rel_to_original_abs(record.offset, bina_abs_offset);
        let filename = png_filename(self.images.len(), clean_abs, original_abs, record);
        let subdir = image_subdir(record.area(), large_threshold);
        let mut png_rel = String::new();
        png_rel.append("images/");
        assert(png_rel@ =~= "images/"@);
        png_rel.append(subdir);
        png_rel.append("/");
        png_rel.append(filename.as_str());
        ImagePlan { subdir, filename, png_rel }
    }

    /// Adds a picture that has been written to its place, with the digest of its file.
    pub fn add(
        &mut self,
        record: &ImageRecord,
        bina_abs_offset: usize,
        large_threshold: usize,
        png_rel: &str,
        sha512: String,
    )
        requires
            old(self).consistent(large_threshold as int),
            places_fit(*record, bina_abs_offset as int),
        ensures
            final(self).consistent(large_threshold as int),
            final(self).images@.len() == old(self).images@.len() + 1,
            final(self).images@.drop_last() == old(self).images@,
            describes(
                final(self).images@.last(),
                old(self).images@.len() as int,
                *record,
                bina_abs_offset as int,
            ),
            final(self).images@.last().png@ == png_rel@,
            final(self).images@.last().sha512@ == sha512@,
    {
        let index = self.images.len();
        let entry = build_manifest_entry(index, record, bina_abs_offset, png_rel, sha512);
        let ghost before = self.images@;
        let area = record.area();
        self.images.push(entry);
        let total = self.images.len();
        assert(self.images@.drop_last() =~= before);
        assert(self.large_count <= before.len() < total && self.small_count <= before.len());
        if area >= large_threshold {
            self.large_count = self.large_count + 1;
        } else {
            self.small_count = self.small_count + 1;
        }
        assert forall|i: int| 0 <= i < self.images@.len() implies (
        #[trigger] self.images@[i]).index == i by {
            if i < before.len() {
                assert(self.images@[i] == before[i]);
            }
        }
    }

    /// The manifest of all pictures.
    pub fn finish(self, fw: &Firmware, clean_bina_size: usize, large_threshold: usize) -> (r:
        Manifest)
        requires
            self.consistent(large_threshold as int),
        ensures
            r.images@ == self.images@,
            r.summary.firmware_product@ == fw.header.product_name@,
            r.summary.firmware_version@ == fw.header.version@,
            tags_of(r.summary.sections@, fw.sections@),
            r.summary.clean_bina_size == clean_bina_size,
            r.summary.image_count == self.images@.len(),
            r.summary.small_count == self.small_count,
            r.summary.large_count == self.large_count,
            r.summary.small_count + r.summary.large_count == r.summary.image_count,
            r.summary.large_count == large_images(r.images@, large_threshold as int),
            r.summary.large_threshold == large_threshold,
    {
        Manifest {
            summary: ManifestSummary {
                firmware_product: fw.header.product_name.clone(),
                firmware_version: fw.header.version.clone(),
                sections: section_tags(&fw.sections),
                clean_bina_size,
                image_count: self.images.len(),
                small_count: self.small_count,
                large_count: self.large_count,
                large_threshold,
            },
            images: self.images,
        }
    }
}

/// `tags` are the tags of `sections`, in order.
pub open spec fn tags_of(tags: Seq<String>, sections: Seq<SectionEntry>) -> bool {
    &&& tags.len() == sections.len()
    &&& forall|i: int| 0 <= i < tags.len() ==> (#[trigger] tags[i])@ == sections[i].tag@
}

fn section_tags(sections: &Vec<SectionEntry>) -> (r: Vec<String>)
    ensures
        tags_of(r@, sections@),
{
    let mut tags: Vec<String> = Vec::new();
    let mut i: usize = 0;
    while i < sections.len()
        invariant
            i <= sections@.len(),
            tags@.len() == i,
            forall|k: int| 0 <= k < i ==> (#[trigger] tags@[k])@ == sections@[k].tag@,
        decreases sections@.len() - i,
    {
        tags.push(sections[i].tag.clone());
        i += 1;
    }
    tags
}

/// Pictures of different numbers go to files of different names.
pub proof fn pictures_go_to_different_files(
    i: nat,
    j: nat,
    clean_i: nat,
    clean_j: nat,
    original_i: nat,
    original_j: nat,
    a: ImageRecord,
    b: ImageRecord,
)
    requires
        i != j,
    ensures
        png_name(i, clean_i, original_i, a) != png_name(j, clean_j, original_j, b),
{
    if png_name(i, clean_i, original_i, a) == png_name(j, clean_j, original_j, b) {
        picture_names_tell_everything(
            i,
            j,
            clean_i,
            clean_j,
            original_i,
            original_j,
            a,
            b,
        );
    }
}

/// Every picture whose pixels reach the threshold counts as large, and no other.
pub proof fn every_large_picture_counts(images: Seq<ManifestImageEntry>, large_threshold: int)
    ensures
        large_images(images, large_threshold) == images.filter(
            |e: ManifestImageEntry| e.width * e.height >= large_threshold,
        ).len(),
    decreases images.len(),
{
    reveal(Seq::filter);
    if images.len() > 0 {
        every_large_picture_counts(images.drop_last(), large_threshold);
    }
}

/// What follows each number in the name of a picture's file.
spec fn name_parts(clean_abs: nat, original_abs: nat, record: ImageRecord) -> (
    Seq<char>,
    Seq<char>,
    Seq<char>,
    Seq<char>,
    Seq<char>,
    Seq<char>,
    Seq<char>,
) {
    let p6 = ".png"@;
    let p5 = "_pal"@ + decimal(record.header.palette_entries as nat, 0) + p6;
    let p4 = "_bpp"@ + decimal(record.header.bpp as nat, 0) + p5;
    let p3 = "x"@ + decimal(record.header.width as nat, 0) + p4;
    let p2 = "_"@ + decimal(record.header.height as nat, 0) + p3;
    let p1 = "_orig_"@ + hexadecimal(original_abs, 8) + p2;
    let p0 = "_clean_"@ + hexadecimal(clean_abs, 8) + p1;
    (p0, p1, p2, p3, p4, p5, p6)
}

proof fn lemma_name_parts(index: nat, clean_abs: nat, original_abs: nat, record: ImageRecord)
    ensures
        png_name(index, clean_abs, original_abs, record) == "img_"@ + decimal(index, 4)
            + name_parts(clean_abs, original_abs, record).0,
{
    let h = record.header;
    let p = name_parts(clean_abs, original_abs, record);
    let f0 = "img_"@ + decimal(index, 4);
    let f1 = f0 + "_clean_"@ + hexadecimal(clean_abs, 8);
    let f2 = f1 + "_orig_"@ + hexadecimal(original_abs, 8);
    let f3 = f2 + "_"@ + decimal(h.height as nat, 0);
    let f4 = f3 + "x"@ + decimal(h.width as nat, 0);
    let f5 = f4 + "_bpp"@ + decimal(h.bpp as nat, 0);
    lemma_regroup(f5, "_pal"@, decimal(h.palette_entries as nat, 0), p.6);
    lemma_regroup(f4, "_bpp"@, decimal(h.bpp as nat, 0), p.5);
    lemma_regroup(f3, "x"@, decimal(h.width as nat, 0), p.4);
    lemma_regroup(f2, "_"@, decimal(h.height as nat, 0), p.3);
    lemma_regroup(f1, "_orig_"@, hexadecimal(original_abs, 8), p.2);
    lemma_regroup(f0, "_clean_"@, hexadecimal(clean_abs, 8), p.1);
}

/// The name of a picture's file tells all that it is made of.
pub proof fn picture_names_tell_everything(
    i: nat,
    j: nat,
    clean_i: nat,
    clean_j: nat,
    original_i: nat,
    original_j: nat,
    a: ImageRecord,
    b: ImageRecord,
)
    requires
        png_name(i, clean_i, original_i, a) == png_name(j, clean_j, original_j, b),
    ensures
        i == j,
        clean_i == clean_j,
        original_i == original_j,
        a.header.width == b.header.width,
        a.header.height == b.header.height,
        a.header.bpp == b.header.bpp,
        a.header.palette_entries == b.header.palette_entries,
{
    reveal_strlit("img_");
    reveal_strlit("_clean_");
    reveal_strlit("_orig_");
    reveal_strlit("_");
    reveal_strlit("x");
    reveal_strlit("_bpp");
    reveal_strlit("_pal");
    reveal_strlit(".png");
    let x = name_parts(clean_i, original_i, a);
    let y = name_parts(clean_j, original_j, b);
    lemma_name_parts(i, clean_i, original_i, a);
    lemma_name_parts(j, clean_j, original_j, b);
    let (g, h) = (a.header, b.header);
    names_tell_their_numbers("img_"@, i, j, 4, x.0, y.0);
    names_tell_their_numbers("_clean_"@, clean_i, clean_j, 8, x.1, y.1);
    names_tell_their_numbers("_orig_"@, original_i, original_j, 8, x.2, y.2);
    names_tell_their_numbers("_"@, g.height as nat, h.height as nat, 0, x.3, y.3);
    names_tell_their_numbers("x"@, g.width as nat, h.width as nat, 0, x.4, y.4);
    names_tell_their_numbers("_bpp"@, g.bpp as nat, h.bpp as nat, 0, x.5, y.5);
    names_tell_their_numbers(
        "_pal"@,
        g.palette_entries as nat,
        h.palette_entries as nat,
        0,
        x.6,
        y.6,
    );
}

/// Pictures go to `large` from the threshold on, and to `small` below it.
pub proof fn pictures_are_large_from_the_threshold_on(area: int, large_threshold: int)
    ensures
        subdir_name(area, large_threshold) == "large"@ <==> area >= large_threshold,
        subdir_name(area, large_threshold) == "small"@ <==> area < large_threshold,
{
    reveal_strlit("large");
    reveal_strlit("small");
    assert("large"@[0] != "small"@[0]);
}

/// An entry tells where its picture begins in the clean section and in the file, how large it is
/// stored and shown, and how many bytes it takes.
pub proof fn entries_tell_their_records(
    entry: ManifestImageEntry,
    index: int,
    record: ImageRecord,
    bina_abs_offset: int,
    k: int,
    r: int,
)
    requires
        describes(entry, index, record, bina_abs_offset),
        0 <= k,
        0 <= r < 512,
    ensures
        entry.index == index,
        entry.clean_bina_offset == record.offset,
        entry.clean_abs_offset - bina_abs_offset == record.offset,
        record.offset < 0x00fa6e3c ==> entry.original_abs_offset == entry.clean_abs_offset,
        record.offset == 0x00fa6e3c + 512 * k + r ==> entry.original_abs_offset == bina_abs_offset
            + 0x00fa6e3c + 540 * k + 28 + r,
        entry.width == record.header.width && entry.output_height == record.header.width,
        entry.height == record.header.height && entry.output_width == record.header.height,
        entry.bpp == record.header.bpp,
        entry.palette_entries == record.header.palette_entries,
        entry.rle_words == record.header.rle_words,
        entry.record_size_bytes == 12 + 2 * entry.palette_entries + 2 * entry.rle_words,
{
    places_count_headers(record.offset as int, k, r, bina_abs_offset);
}

} // verus!
