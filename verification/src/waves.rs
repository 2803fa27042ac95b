//! The RIFF/WAVE sounds in the clean BINA section.

use vstd::prelude::*;

use crate::container::{read_u16_le, read_u32_le, u16_le, u32_le};
use crate::depacketize::{clean_bina_rel_to_original_abs, original_abs};
use crate::error::Error;
use crate::numbers::{hex_number, written_offsets_are_read_back, HexError};
use crate::text::{
    decimal, hexadecimal, lemma_regroup, names_tell_their_numbers, push_decimal, push_hexadecimal,
};

verus! {

/// The PCM format of a sound.
#[derive(Debug, Clone, Copy, PartialEq, Eq)]
pub struct WavFormat {
    pub audio_format: u16,
    pub channels: u16,
    pub sample_rate: u32,
    pub byte_rate: u32,
    pub block_align: u16,
    pub bits_per_sample: u16,
}

/// A sound found in the clean section. It lasts `sample_frames / sample_rate` seconds.
#[derive(Debug, Clone)]
pub struct WavRecord {
    pub index: usize,
    pub clean_bina_offset: usize,
    pub clean_bina_offset_hex: String,
    pub clean_abs_offset: usize,
    pub clean_abs_offset_hex: String,
    pub original_abs_offset: usize,
    pub original_abs_offset_hex: String,
    pub end_clean_bina_offset: usize,
    pub wav_size: usize,
    pub riff_size: u32,
    pub fmt_chunk_offset: usize,
    pub data_chunk_offset: usize,
    pub data_size: usize,
    pub audio_format: u16,
    pub channels: u16,
    pub sample_rate: u32,
    pub byte_rate: u32,
    pub block_align: u16,
    pub bits_per_sample: u16,
    pub sample_frames: usize,
}

/// An offset as text: `0x` and at least eight hexadecimal digits.
pub open spec fn offset_text(value: nat) -> Seq<char> {
    "0x"@ + hexadecimal(value, 8)
}

fn hex_offset(value: usize) -> (r: String)
    ensures
        r@ == offset_text(value as nat),
{
    let mut out = String::new();
    out.append("0x");
    assert(out@ =~= "0x"@);
    push_hexadecimal(&mut out, value as u64, 8);
    out
}

/// The format block at the beginning of a `fmt ` chunk.
pub open spec fn format_at(data: Seq<u8>) -> WavFormat {
    WavFormat {
        audio_format: u16_le(data, 0),
        channels: u16_le(data, 2),
        sample_rate: u32_le(data, 4),
        byte_rate: u32_le(data, 8),
        block_align: u16_le(data, 12),
        bits_per_sample: u16_le(data, 14),
    }
}

/// The size of a frame: one sample of each channel.
pub open spec fn frame_size(f: WavFormat) -> int {
    f.channels as int * f.bits_per_sample as int / 8
}

/// What a `fmt ` chunk is refused with, if anything.
pub open spec fn format_failure(data: Seq<u8>) -> Option<Error> {
    let f = format_at(data);
    if data.len() < 16 {
        Some(Error::FmtChunkTooSmall)
    } else if f.audio_format != 1 {
        Some(Error::UnsupportedAudioFormat { audio_format: f.audio_format })
    } else if !(1 <= f.channels <= 2) {
        Some(Error::InvalidChannelCount { channels: f.channels })
    } else if !(8000 <= f.sample_rate <= 192_000) {
        Some(Error::InvalidSampleRate { sample_rate: f.sample_rate })
    } else if f.bits_per_sample != 8 && f.bits_per_sample != 16 && f.bits_per_sample != 24
        && f.bits_per_sample != 32 {
        Some(Error::InvalidBitsPerSample { bits_per_sample: f.bits_per_sample })
    } else if f.block_align != frame_size(f) {
        Some(
            Error::BlockAlignMismatch {
                block_align: f.block_align,
                expected_block_align: frame_size(f) as u32,
            },
        )
    } else if f.byte_rate != f.sample_rate * frame_size(f) {
        Some(
            Error::ByteRateMismatch {
                byte_rate: f.byte_rate,
                expected_byte_rate: (f.sample_rate * frame_size(f)) as u32,
            },
        )
    } else {
        None
    }
}

/// Reads the format block of a `fmt ` chunk: PCM, mono or stereo, with derived fields that
/// agree.
pub fn parse_fmt_chunk(data: &[u8]) -> (r: Result<WavFormat, Error>)
    ensures
        match r {
            Ok(f) => format_failure(data@) is None && f == format_at(data@),
            Err(e) => format_failure(data@) == Some(e),
        },
{
    if data.len() < 16 {
        return Err(Error::FmtChunkTooSmall);
    }
    let audio_format = read_u16_le(data, 0)?;
    let channels = read_u16_le(data, 2)?;
    let sample_rate = read_u32_le(data, 4)?;
    let byte_rate = read_u32_le(data, 8)?;
    let block_align = read_u16_le(data, 12)?;
    let bits_per_sample = read_u16_le(data, 14)?;
    if audio_format != 1 {
        return Err(Error::UnsupportedAudioFormat { audio_format });
    }
    if channels < 1 || channels > 2 {
        return Err(Error::InvalidChannelCount { channels });
    }
    if sample_rate < 8000 || sample_rate > 192_000 {
        return Err(Error::InvalidSampleRate { sample_rate });
    }
    if bits_per_sample != 8 && bits_per_sample != 16 && bits_per_sample != 24 && bits_per_sample
        != 32 {
        return Err(Error::InvalidBitsPerSample { bits_per_sample });
    }
    assert(8 <= channels * bits_per_sample <= 64) by (nonlinear_arith)
        requires
            1 <= channels <= 2,
            8 <= bits_per_sample <= 32,
    ;
    let expected_block_align = channels as u32 * bits_per_sample as u32 / 8;
    if block_align as u32 != expected_block_align {
        return Err(Error::BlockAlignMismatch { block_align, expected_block_align });
    }
    assert(sample_rate * expected_block_align <= 192_000 * 8) by (nonlinear_arith)
        requires
            0 <= sample_rate <= 192_000,
            0 <= expected_block_align <= 8,
    ;
    let expected_byte_rate = sample_rate * expected_block_align;
    if byte_rate != expected_byte_rate {
        return Err(Error::ByteRateMismatch { byte_rate, expected_byte_rate });
    }
    Ok(WavFormat { audio_format, channels, sample_rate, byte_rate, block_align, bits_per_sample })
}

/// The frames of a format that is not refused are not empty.
proof fn lemma_frames_not_empty(data: Seq<u8>)
    requires
        format_failure(data) is None,
    ensures
        format_at(data).block_align >= 1,
{
    let f = format_at(data);
    assert(f.channels * f.bits_per_sample >= 8) by (nonlinear_arith)
        requires
            f.channels >= 1,
            f.bits_per_sample >= 8,
    ;
}

/// A chunk of a RIFF file: where it begins, its name, and the size of its contents.
pub struct Chunk {
    pub pos: int,
    pub id: Seq<u8>,
    pub size: int,
}

/// The chunk at `pos`.
pub open spec fn chunk_at(data: Seq<u8>, pos: int) -> Chunk {
    Chunk { pos, id: data.subrange(pos, pos + 4), size: u32_le(data, pos + 4) as int }
}

/// The chunks from `pos` to `end`, each one followed by a byte of padding if its size is odd.
/// The last one may reach past `end`.
pub open spec fn chunks(data: Seq<u8>, pos: int, end: int) -> Seq<Chunk>
    decreases if pos < end { end - pos } else { 0 },
{
    if pos + 8 > end {
        Seq::empty()
    } else {
        let c = chunk_at(data, pos);
        seq![c] + chunks(data, pos + 8 + c.size + c.size % 2, end)
    }
}

/// The name `fmt `.
pub open spec fn fmt_id() -> Seq<u8> {
    seq![0x66, 0x6d, 0x74, 0x20]
}

/// The name `data`.
pub open spec fn data_id() -> Seq<u8> {
    seq![0x64, 0x61, 0x74, 0x61]
}

/// The contents of a chunk.
pub open spec fn chunk_contents(data: Seq<u8>, c: Chunk) -> Seq<u8> {
    data.subrange(c.pos + 8, c.pos + 8 + c.size)
}

/// What a chunk makes of the file that it stands in.
pub enum Verdict {
    /// The file may be a sound.
    Fine,
    /// The file is no sound.
    NoWave,
    /// The file is a sound of a kind that is refused.
    Refused(Error),
}

/// What a chunk makes of a file that ends at `end`.
pub open spec fn chunk_verdict(data: Seq<u8>, c: Chunk, end: int) -> Verdict {
    if c.pos + 8 + c.size > end {
        Verdict::NoWave
    } else if c.id == fmt_id() {
        if c.size < 16 {
            Verdict::NoWave
        } else {
            match format_failure(chunk_contents(data, c)) {
                Some(e) => Verdict::Refused(e),
                None => Verdict::Fine,
            }
        }
    } else {
        Verdict::Fine
    }
}

/// The verdict of the first chunk that is not fine.
pub open spec fn first_verdict(data: Seq<u8>, cs: Seq<Chunk>, end: int) -> Verdict
    decreases cs.len(),
{
    if cs.len() == 0 {
        Verdict::Fine
    } else {
        match chunk_verdict(data, cs[0], end) {
            Verdict::Fine => first_verdict(data, cs.drop_first(), end),
            v => v,
        }
    }
}

/// The last chunk of the given name.
pub open spec fn last_chunk(cs: Seq<Chunk>, id: Seq<u8>) -> Option<Chunk>
    decreases cs.len(),
{
    if cs.len() == 0 {
        None
    } else if cs.last().id == id {
        Some(cs.last())
    } else {
        last_chunk(cs.drop_last(), id)
    }
}

/// A sound: where it begins and ends, and what its chunks say.
pub struct Wave {
    pub offset: int,
    pub end: int,
    pub riff_size: u32,
    pub fmt_pos: int,
    pub data_pos: int,
    pub data_size: int,
    pub format: WavFormat,
}

/// Whether `RIFF`, a size and `WAVE` stand at `offset`.
pub open spec fn riff_marked(data: Seq<u8>, offset: int) -> bool {
    &&& offset + 12 <= data.len()
    &&& data.subrange(offset, offset + 4) == seq![0x52u8, 0x49, 0x46, 0x46]
    &&& data.subrange(offset + 8, offset + 12) == seq![0x57u8, 0x41, 0x56, 0x45]
}

/// The sound at `offset`, if there is one; or why it is refused.
pub open spec fn wave_at(data: Seq<u8>, offset: int) -> Result<Option<Wave>, Error> {
    let riff_size = u32_le(data, offset + 4);
    let end = offset + 8 + riff_size;
    let cs = chunks(data, offset + 12, end);
    if !riff_marked(data, offset) || riff_size + 8 < 44 || end > data.len() {
        Ok(None)
    } else {
        match first_verdict(data, cs, end) {
            Verdict::NoWave => Ok(None),
            Verdict::Refused(e) => Err(e),
            Verdict::Fine => match (last_chunk(cs, fmt_id()), last_chunk(cs, data_id())) {
                (Some(f), Some(d)) => {
                    let format = format_at(chunk_contents(data, f));
                    if d.size > 0 && d.size % format.block_align as int == 0 {
                        Ok(
                            Some(
                                Wave {
                                    offset,
                                    end,
                                    riff_size,
                                    fmt_pos: f.pos,
                                    data_pos: d.pos,
                                    data_size: d.size,
                                    format,
                                },
                            ),
                        )
                    } else {
                        Ok(None)
                    }
                },
                _ => Ok(None),
            },
        }
    }
}

/// `r` describes the sound `w` as the one of number `index`.
pub open spec fn wave_record(r: WavRecord, index: int, w: Wave, bina_abs_offset: int) -> bool {
    &&& r.index == index
    &&& r.clean_bina_offset == w.offset
    &&& r.clean_bina_offset_hex@ == offset_text(w.offset as nat)
    &&& r.clean_abs_offset == bina_abs_offset + w.offset
    &&& r.clean_abs_offset_hex@ == offset_text((bina_abs_offset + w.offset) as nat)
    &&& r.original_abs_offset == original_abs(w.offset, bina_abs_offset)
    &&& r.original_abs_offset_hex@ == offset_text(original_abs(w.offset, bina_abs_offset) as nat)
    &&& r.end_clean_bina_offset == w.end
    &&& r.wav_size == w.end - w.offset
    &&& r.riff_size == w.riff_size
    &&& r.fmt_chunk_offset == w.fmt_pos
    &&& r.data_chunk_offset == w.data_pos
    &&& r.data_size == w.data_size
    &&& r.audio_format == w.format.audio_format
    &&& r.channels == w.format.channels
    &&& r.sample_rate == w.format.sample_rate
    &&& r.byte_rate == w.format.byte_rate
    &&& r.block_align == w.format.block_align
    &&& r.bits_per_sample == w.format.bits_per_sample
    &&& r.sample_frames == w.data_size / (w.format.block_align as int)
}

/// Whether the places of a sound in the file can be counted.
pub open spec fn wave_fits(w: Wave, bina_abs_offset: int) -> bool {
    original_abs(w.offset, bina_abs_offset) <= usize::MAX
}

proof fn lemma_first_verdict_concat(data: Seq<u8>, a: Seq<Chunk>, b: Seq<Chunk>, end: int)
    ensures
        first_verdict(data, a + b, end) == match first_verdict(data, a, end) {
            Verdict::Fine => first_verdict(data, b, end),
            v => v,
        },
    decreases a.len(),
{
    if a.len() == 0 {
        assert(a + b =~= b);
    } else {
        assert((a + b)[0] == a[0]);
        assert((a + b).drop_first() =~= a.drop_first() + b);
        lemma_first_verdict_concat(data, a.drop_first(), b, end);
    }
}

fn has_id(data: &[u8], pos: usize, a: u8, b: u8, c: u8, d: u8) -> (r: bool)
    requires
        pos + 4 <= data@.len(),
    ensures
        r == (data@.subrange(pos as int, pos + 4) == seq![a, b, c, d]),
{
    let size = data.len();
    assert(pos + 4 <= size);
    let ghost id = data@.subrange(pos as int, pos + 4);
    let r = data[pos] == a && data[pos + 1] == b && data[pos + 2] == c && data[pos + 3] == d;
    proof {
        if r {
            assert(id =~= seq![a, b, c, d]);
        } else if id == seq![a, b, c, d] {
            assert(id[0] == a && id[1] == b && id[2] == c && id[3] == d);
        }
    }
    r
}

/// What the chunks of a file say.
struct Found {
    /// The format, and where its chunk begins.
    fmt: Option<(WavFormat, usize)>,
    /// Where the chunk of samples begins, and the size of its contents.
    data: Option<(usize, usize)>,
}

impl Found {
    /// The last chunks of the two names among `cs`.
    spec fn of(self, data: Seq<u8>, cs: Seq<Chunk>) -> bool {
        &&& match (self.fmt, last_chunk(cs, fmt_id())) {
            (None, None) => true,
            (Some((format, pos)), Some(c)) => {
                &&& c.pos == pos
                &&& format == format_at(chunk_contents(data, c))
                &&& format.block_align > 0
            },
            _ => false,
        }
        &&& match (self.data, last_chunk(cs, data_id())) {
            (None, None) => true,
            (Some((pos, size)), Some(c)) => c.pos == pos && c.size == size,
            _ => false,
        }
    }
}

/// Walks over the chunks of a file from `start` to `end`.
fn find_chunks(data: &[u8], start: usize, end: usize) -> (r: Result<Option<Found>, Error>)
    requires
        start <= end <= data@.len(),
    ensures
        ({
            let cs = chunks(data@, start as int, end as int);
            match first_verdict(data@, cs, end as int) {
                Verdict::Fine => r matches Ok(Some(found)) && found.of(data@, cs),
                Verdict::NoWave => r matches Ok(None),
                Verdict::Refused(e) => r == Err::<Option<Found>, Error>(e),
            }
        }),
{
    let mut found = Found { fmt: None, data: None };
    let mut pos = start;
    let ghost all = chunks(data@, start as int, end as int);
    let ghost mut done: Seq<Chunk> = Seq::empty();
    proof {
        assert(all =~= done + chunks(data@, pos as int, end as int));
    }
    while end - pos >= 8
        invariant
            pos <= end <= data@.len(),
            all == chunks(data@, start as int, end as int),
            all == done + chunks(data@, pos as int, end as int),
            first_verdict(data@, done, end as int) is Fine,
            found.of(data@, done),
        decreases end - pos,
    {
        let ghost c = chunk_at(data@, pos as int);
        let ghost rest = chunks(data@, pos + 8 + c.size + c.size % 2, end as int);
        proof {
            assert(chunks(data@, pos as int, end as int) == seq![c] + rest);
            lemma_first_verdict_concat(data@, done, seq![c] + rest, end as int);
            assert((seq![c] + rest)[0] == c);
            assert((seq![c] + rest).drop_first() =~= rest);
            lemma_first_verdict_concat(data@, done, seq![c], end as int);
            assert(seq![c].drop_first() =~= Seq::<Chunk>::empty());
            assert(first_verdict(data@, Seq::<Chunk>::empty(), end as int) is Fine);
            assert(done.push(c) =~= done + seq![c]);
            assert(done.push(c).drop_last() =~= done);
            assert(done + (seq![c] + rest) =~= done.push(c) + rest);
        }
        let size = read_u32_le(data, pos + 4)?;
        let data_start = pos + 8;
        if size as u64 > (end - data_start) as u64 {
            return Ok(None);
        }
        let size = size as usize;
        let data_end = data_start + size;
        let is_fmt = has_id(data, pos, 0x66, 0x6d, 0x74, 0x20);
        let is_data = has_id(data, pos, 0x64, 0x61, 0x74, 0x61);
        proof {
            assert(fmt_id()[0] != data_id()[0]);
        }
        if is_fmt {
            if size < 16 {
                return Ok(None);
            }
            let format = parse_fmt_chunk(
                vstd::slice::slice_subrange(data, data_start, data_end),
            )?;
            proof {
                lemma_frames_not_empty(chunk_contents(data@, c));
            }
            found.fmt = Some((format, pos));
        } else if is_data {
            found.data = Some((pos, size));
        }
        proof {
            done = done.push(c);
        }
        if size % 2 == 1 && data_end < end {
            pos = data_end + 1;
        } else {
            pos = data_end;
        }
    }
    proof {
        assert(all =~= done);
    }
    Ok(Some(found))
}

/// Reads the sound at `offset` of the clean section, if there is one there.
///
/// The record is numbered 0.
pub fn parse_wav_at(clean_bina: &[u8], offset: usize, bina_abs_offset: usize) -> (r: Result<
    Option<WavRecord>,
    Error,
>)
    requires
        wave_at(clean_bina@, offset as int) matches Ok(Some(w)) ==> wave_fits(
            w,
            bina_abs_offset as int,
        ),
    ensures
        match (r, wave_at(clean_bina@, offset as int)) {
            (Ok(Some(record)), Ok(Some(w))) => wave_record(record, 0, w, bina_abs_offset as int),
            (Ok(None), Ok(None)) => true,
            (Err(e), Err(failure)) => e == failure,
            _ => false,
        },
{
    let size = clean_bina.len();
    if size < 12 || offset > size - 12 {
        return Ok(None);
    }
    if !has_id(clean_bina, offset, 0x52, 0x49, 0x46, 0x46) {
        return Ok(None);
    }
    if !has_id(clean_bina, offset + 8, 0x57, 0x41, 0x56, 0x45) {
        return Ok(None);
    }
    let riff_size = read_u32_le(clean_bina, offset + 4)?;
    if riff_size < 36 || riff_size as u64 > (size - offset - 8) as u64 {
        return Ok(None);
    }
    let wav_size = riff_size as usize + 8;
    let end_clean_bina_offset = offset + wav_size;
    let ghost cs = chunks(clean_bina@, offset + 12, end_clean_bina_offset as int);
    let found = match find_chunks(clean_bina, offset + 12, end_clean_bina_offset)? {
        Some(found) => found,
        None => {
            return Ok(None);
        },
    };
    let (format, fmt_chunk_offset) = match found.fmt {
        Some(fmt) => fmt,
        None => {
            return Ok(None);
        },
    };
    let (data_chunk_offset, data_size) = match found.data {
        Some(data) => data,
        None => {
            return Ok(None);
        },
    };
    let bytes_per_frame = format.block_align as usize;
    if data_size == 0 || data_size % bytes_per_frame != 0 {
        return Ok(None);
    }
    let sample_frames = data_size / bytes_per_frame;
    proof {
        assert(wave_at(clean_bina@, offset as int) matches Ok(Some(w)) && w.offset == offset);
    }
    let original_abs_offset = clean_bina_rel_to_original_abs(offset, bina_abs_offset);
    let clean_abs_offset = bina_abs_offset + offset;
    Ok(
        Some(
            WavRecord {
                index: 0,
                clean_bina_offset: offset,
                clean_bina_offset_hex: hex_offset(offset),
                clean_abs_offset,
                clean_abs_offset_hex: hex_offset(clean_abs_offset),
                original_abs_offset,
                original_abs_offset_hex: hex_offset(original_abs_offset),
                end_clean_bina_offset,
                wav_size,
                riff_size,
                fmt_chunk_offset,
                data_chunk_offset,
                data_size,
                audio_format: format.audio_format,
                channels: format.channels,
                sample_rate: format.sample_rate,
                byte_rate: format.byte_rate,
                block_align: format.block_align,
                bits_per_sample: format.bits_per_sample,
                sample_frames,
            },
        ),
    )
}

/// The sounds that a search finds.
#[verifier::ext_equal]
pub struct WaveSearch {
    /// The sounds, in order.
    pub found: Seq<Wave>,
    /// What ended the search before the end of the section, if anything.
    pub failure: Option<Error>,
}

/// The search from `off` on: at each place either a sound begins, and the search goes on behind
/// it, or none does, and it goes on one byte further.
pub open spec fn wave_search(data: Seq<u8>, off: int) -> WaveSearch
    decreases data.len() - off,
{
    if off + 12 > data.len() {
        WaveSearch { found: Seq::empty(), failure: None }
    } else {
        match wave_at(data, off) {
            Ok(Some(w)) => {
                let rest = wave_search(data, w.end);
                WaveSearch { found: seq![w] + rest.found, failure: rest.failure }
            },
            Ok(None) => wave_search(data, off + 1),
            Err(e) => WaveSearch { found: Seq::empty(), failure: Some(e) },
        }
    }
}

/// Whether the places in the file of all sounds found from `start` on can be counted.
pub open spec fn waves_fit(data: Seq<u8>, start: int, bina_abs_offset: int) -> bool {
    forall|i: int|
        0 <= i < wave_search(data, start).found.len() ==> wave_fits(
            #[trigger] wave_search(data, start).found[i],
            bina_abs_offset,
        )
}

/// `records` describe the sounds `found`, numbered from 0.
pub open spec fn wave_records(
    records: Seq<WavRecord>,
    found: Seq<Wave>,
    bina_abs_offset: int,
) -> bool {
    &&& records.len() == found.len()
    &&& forall|i: int|
        0 <= i < records.len() ==> wave_record(#[trigger] records[i], i, found[i], bina_abs_offset)
}

/// Finds the sounds in the clean section from `scan_start` on, numbered from 0.
pub fn find_waves(clean_bina: &[u8], bina_abs_offset: usize, scan_start: usize) -> (r: Result<
    Vec<WavRecord>,
    Error,
>)
    requires
        waves_fit(clean_bina@, scan_start as int, bina_abs_offset as int),
    ensures
        ({
            let search = wave_search(clean_bina@, scan_start as int);
            match r {
                Ok(records) => search.failure is None && wave_records(
                    records@,
                    search.found,
                    bina_abs_offset as int,
                ),
                Err(e) => search.failure == Some(e),
            }
        }),
{
    let size = clean_bina.len();
    let mut records: Vec<WavRecord> = Vec::new();
    let mut off = scan_start;
    let ghost search = wave_search(clean_bina@, scan_start as int);
    let ghost mut done: Seq<Wave> = Seq::empty();
    proof {
        assert(search.found =~= done + wave_search(clean_bina@, off as int).found);
    }
    while size >= 12 && off <= size - 12
        invariant
            size == clean_bina@.len(),
            search.found == done + wave_search(clean_bina@, off as int).found,
            search.failure == wave_search(clean_bina@, off as int).failure,
            search == wave_search(clean_bina@, scan_start as int),
            forall|i: int|
                0 <= i < search.found.len() ==> wave_fits(
                    #[trigger] search.found[i],
                    bina_abs_offset as int,
                ),
            wave_records(records@, done, bina_abs_offset as int),
        decreases if off < size { size - off } else { 0 },
    {
        proof {
            if let Ok(Some(w)) = wave_at(clean_bina@, off as int) {
                assert(search.found[done.len() as int] == w);
            }
        }
        match parse_wav_at(clean_bina, off, bina_abs_offset)? {
            Some(mut record) => {
                let ghost w = wave_at(clean_bina@, off as int)->Ok_0->0;
                record.index = records.len();
                off = record.end_clean_bina_offset;
                records.push(record);
                proof {
                    assert(done + (seq![w] + wave_search(clean_bina@, w.end).found) =~= done.push(w)
                        + wave_search(clean_bina@, w.end).found);
                    done = done.push(w);
                }
            },
            None => {
                off = off + 1;
            },
        }
    }
    proof {
        assert(search.found =~= done);
    }
    Ok(records)
}

/// The name of the file that a sound goes to.
pub open spec fn wav_name(
    index: nat,
    clean_abs: nat,
    original_abs: nat,
    sample_rate: nat,
    channels: nat,
    bits_per_sample: nat,
    duration_ms: nat,
) -> Seq<char> {
    "wav_"@ + decimal(index, 3) + "_clean_"@ + hexadecimal(clean_abs, 8) + "_orig_"@ + hexadecimal(
        original_abs,
        8,
    ) + "_"@ + decimal(sample_rate, 0) + "hz_"@ + decimal(channels, 0) + "ch_"@ + decimal(
        bits_per_sample,
        0,
    ) + "bit_"@ + decimal(duration_ms, 0) + "ms.wav"@
}

/// The name of the file that a sound goes to.
pub fn wav_filename(
    index: usize,
    clean_abs: usize,
    original_abs: usize,
    sample_rate: u32,
    channels: u16,
    bits_per_sample: u16,
    duration_ms: u64,
) -> (r: String)
    ensures
        r@ == wav_name(
            index as nat,
            clean_abs as nat,
            original_abs as nat,
            sample_rate as nat,
            channels as nat,
            bits_per_sample as nat,
            duration_ms as nat,
        ),
{
    let mut out = String::new();
    out.append("wav_");
    assert(out@ =~= "wav_"@);
    push_decimal(&mut out, index as u64, 3);
    out.append("_clean_");
    push_hexadecimal(&mut out, clean_abs as u64, 8);
    out.append("_orig_");
    push_hexadecimal(&mut out, original_abs as u64, 8);
    out.append("_");
    push_decimal(&mut out, sample_rate as u64, 0);
    out.append("hz_");
    push_decimal(&mut out, channels as u64, 0);
    out.append("ch_");
    push_decimal(&mut out, bits_per_sample as u64, 0);
    out.append("bit_");
    push_decimal(&mut out, duration_ms, 0);
    out.append("ms.wav");
    out
}

/// The directory of sounds: the path that is joined to the output directory.
pub fn waves_dir() -> (r: &'static str)
    ensures
        r@ == "waves"@,
{
    "waves"
}

/// Whether a sound lasts at least so many milliseconds.
pub open spec fn lasts(record: WavRecord, min_duration_ms: nat) -> bool {
    record.sample_frames * 1000 >= min_duration_ms * record.sample_rate
}

/// The sounds that last at least so many milliseconds.
pub open spec fn lasting(records: Seq<WavRecord>, min_duration_ms: nat) -> Seq<WavRecord> {
    records.filter(|record: WavRecord| lasts(record, min_duration_ms))
}

/// The same sounds, numbered from 0.
pub open spec fn renumbered(records: Seq<WavRecord>) -> Seq<WavRecord> {
    Seq::new(records.len(), |i: int| records[i].with_index(i))
}

impl WavRecord {
    /// The same sound with the number `index`.
    pub open spec fn with_index(self, index: int) -> WavRecord {
        WavRecord { index: index as usize, ..self }
    }

    /// The name of the file that the sound goes to, given how long it lasts.
    pub open spec fn name(self, duration_ms: nat) -> Seq<char> {
        wav_name(
            self.index as nat,
            self.clean_abs_offset as nat,
            self.original_abs_offset as nat,
            self.sample_rate as nat,
            self.channels as nat,
            self.bits_per_sample as nat,
            duration_ms,
        )
    }

    /// The name of the file that the sound goes to, given how long it lasts.
    pub fn path(&self, duration_ms: u64) -> (r: String)
        ensures
            r@ == self.name(duration_ms as nat),
    {
        wav_filename(
            self.index,
            self.clean_abs_offset,
            self.original_abs_offset,
            self.sample_rate,
            self.channels,
            self.bits_per_sample,
            duration_ms,
        )
    }

    /// The bytes of the sound in the clean section.
    pub fn bytes<'a>(&self, clean_bina: &'a [u8]) -> (r: &'a [u8])
        requires
            self.clean_bina_offset <= self.end_clean_bina_offset <= clean_bina@.len(),
        ensures
            r@ == clean_bina@.subrange(
                self.clean_bina_offset as int,
                self.end_clean_bina_offset as int,
            ),
    {
        vstd::slice::slice_subrange(clean_bina, self.clean_bina_offset, self.end_clean_bina_offset)
    }

    /// Whether the sound lasts at least so many milliseconds.
    fn lasts_for(&self, min_duration_ms: u64) -> (r: bool)
        ensures
            r == lasts(*self, min_duration_ms as nat),
    {
        assert(min_duration_ms * self.sample_rate <= 0xffff_ffff_ffff_ffff * 0xffff_ffff)
            by (nonlinear_arith)
            requires
                0 <= min_duration_ms <= 0xffff_ffff_ffff_ffff,
                0 <= self.sample_rate <= 0xffff_ffff,
        ;
        self.sample_frames as u128 * 1000 >= min_duration_ms as u128 * self.sample_rate as u128
    }

    /// The same sound with the number `index`.
    fn numbered(&self, index: usize) -> (r: WavRecord)
        ensures
            r == self.with_index(index as int),
    {
        WavRecord {
            index,
            clean_bina_offset: self.clean_bina_offset,
            clean_bina_offset_hex: self.clean_bina_offset_hex.clone(),
            clean_abs_offset: self.clean_abs_offset,
            clean_abs_offset_hex: self.clean_abs_offset_hex.clone(),
            original_abs_offset: self.original_abs_offset,
            original_abs_offset_hex: self.original_abs_offset_hex.clone(),
            end_clean_bina_offset: self.end_clean_bina_offset,
            wav_size: self.wav_size,
            riff_size: self.riff_size,
            fmt_chunk_offset: self.fmt_chunk_offset,
            data_chunk_offset: self.data_chunk_offset,
            data_size: self.data_size,
            audio_format: self.audio_format,
            channels: self.channels,
            sample_rate: self.sample_rate,
            byte_rate: self.byte_rate,
            block_align: self.block_align,
            bits_per_sample: self.bits_per_sample,
            sample_frames: self.sample_frames,
        }
    }
}

/// Keeps the sounds that last at least so many milliseconds, and numbers them anew.
pub fn filter_by_min_duration(records: Vec<WavRecord>, min_duration_ms: u64) -> (r: Vec<WavRecord>)
    ensures
        r@ == renumbered(lasting(records@, min_duration_ms as nat)),
{
    let mut filtered: Vec<WavRecord> = Vec::new();
    let mut i: usize = 0;
    let ghost long = |record: WavRecord| lasts(record, min_duration_ms as nat);
    proof {
        reveal(Seq::filter);
        assert(records@.take(0).filter(long) =~= Seq::empty());
    }
    while i < records.len()
        invariant
            i <= records@.len(),
            long == (|record: WavRecord| lasts(record, min_duration_ms as nat)),
            filtered@ == renumbered(records@.take(i as int).filter(long)),
        decreases records@.len() - i,
    {
        let ghost kept = records@.take(i as int).filter(long);
        proof {
            reveal(Seq::filter);
            assert(records@.take(i + 1).drop_last() =~= records@.take(i as int));
        }
        if records[i].lasts_for(min_duration_ms) {
            let record = records[i].numbered(filtered.len());
            filtered.push(record);
            proof {
                assert(filtered@ =~= renumbered(kept.push(records@[i as int])));
            }
        }
        i = i + 1;
    }
    proof {
        assert(records@.take(i as int) =~= records@);
    }
    filtered
}

/// Finds the sounds in the clean section from `scan_start` on that last at least so many
/// milliseconds, numbered from 0.
pub fn select_waves(
    clean_bina: &[u8],
    bina_abs_offset: usize,
    scan_start: usize,
    min_duration_ms: u64,
) -> (r: Result<Vec<WavRecord>, Error>)
    requires
        waves_fit(clean_bina@, scan_start as int, bina_abs_offset as int),
    ensures
        ({
            let search = wave_search(clean_bina@, scan_start as int);
            match r {
                Ok(records) => search.failure is None && exists|all: Seq<WavRecord>| #[trigger]
                    wave_records(all, search.found, bina_abs_offset as int) && records@
                        == renumbered(lasting(all, min_duration_ms as nat)),
                Err(e) => search.failure == Some(e),
            }
        }),
{
    let records = find_waves(clean_bina, bina_abs_offset, scan_start)?;
    Ok(filter_by_min_duration(records, min_duration_ms))
}

/// The sounds found lie in the section behind the start of the search, in order, and do not
/// overlap. Each is the sound that begins at its place.
pub proof fn found_waves_are_disjoint(data: Seq<u8>, start: int)
    requires
        0 <= start,
    ensures
        ({
            let found = wave_search(data, start).found;
            &&& forall|i: int|
                0 <= i < found.len() ==> start <= (#[trigger] found[i]).offset < found[i].end
                    <= data.len()
            &&& forall|i: int, j: int|
                0 <= i < j < found.len() ==> (#[trigger] found[i]).end <= (#[trigger] found[j]).offset
            &&& forall|i: int|
                0 <= i < found.len() ==> wave_at(data, (#[trigger] found[i]).offset) == Ok::<
                    Option<Wave>,
                    Error,
                >(Some(found[i]))
        }),
    decreases data.len() - start,
{
    if start + 12 <= data.len() {
        match wave_at(data, start) {
            Ok(Some(w)) => {
                found_waves_are_disjoint(data, w.end);
                let rest = wave_search(data, w.end).found;
                let found = wave_search(data, start).found;
                assert(found == seq![w] + rest);
                assert forall|i: int| 0 < i < found.len() implies found[i] == rest[i - 1] by {}
            },
            Ok(None) => {
                found_waves_are_disjoint(data, start + 1);
            },
            Err(_) => {},
        }
    }
}

/// A search that runs to its end misses no sound: each one behind the start of the search is
/// found, unless it begins inside another one that is.
pub proof fn no_wave_is_missed(data: Seq<u8>, start: int, offset: int)
    requires
        0 <= start <= offset,
        wave_search(data, start).failure is None,
        wave_at(data, offset) matches Ok(Some(_)),
    ensures
        exists|i: int|
            0 <= i < wave_search(data, start).found.len() && (
            #[trigger] wave_search(data, start).found[i]).offset <= offset < wave_search(
                data,
                start,
            ).found[i].end,
    decreases data.len() - start,
{
    let found = wave_search(data, start).found;
    match wave_at(data, start) {
        Ok(Some(w)) => {
            assert(found == seq![w] + wave_search(data, w.end).found);
            assert(found[0] == w);
            if offset >= w.end {
                no_wave_is_missed(data, w.end, offset);
                let i = choose|i: int|
                    0 <= i < wave_search(data, w.end).found.len() && (
                    #[trigger] wave_search(data, w.end).found[i]).offset <= offset < wave_search(
                        data,
                        w.end,
                    ).found[i].end;
                assert(found[i + 1] == wave_search(data, w.end).found[i]);
            }
        },
        Ok(None) => {
            no_wave_is_missed(data, start + 1, offset);
        },
        Err(_) => {},
    }
}

/// A sound holds its chunks and at least one frame, its data is made of whole frames, and its
/// format is the one that its `fmt ` chunk gives.
pub proof fn waves_hold_whole_frames(data: Seq<u8>, offset: int)
    requires
        0 <= offset,
    ensures
        wave_at(data, offset) matches Ok(Some(w)) ==> {
            &&& w.format.block_align > 0
            &&& w.data_size / (w.format.block_align as int) >= 1
            &&& w.data_size == w.data_size / (w.format.block_align as int) * w.format.block_align
            &&& w.offset + 12 <= w.fmt_pos && w.fmt_pos + 24 <= w.end
            &&& w.offset + 12 <= w.data_pos && w.data_pos + 8 + w.data_size <= w.end
            &&& format_failure(data.subrange(w.fmt_pos + 8, w.end)) is None
            &&& w.format == format_at(data.subrange(w.fmt_pos + 8, w.end))
        },
{
    if let Ok(Some(w)) = wave_at(data, offset) {
        let cs = chunks(data, offset + 12, w.end);
        lemma_last_chunk(data, cs, fmt_id(), w.end);
        lemma_last_chunk(data, cs, data_id(), w.end);
        lemma_chunks_begin(data, offset + 12, w.end);
        let f = last_chunk(cs, fmt_id())->0;
        let whole = data.subrange(f.pos + 8, w.end);
        let contents = chunk_contents(data, f);
        assert(contents.len() >= 16);
        assert forall|i: int| 0 <= i < 16 implies contents[i] == whole[i] by {}
        assert(format_at(contents) == format_at(whole));
        let b = w.format.block_align as int;
        lemma_frames_not_empty(contents);
        assert(w.data_size / b >= 1 && w.data_size == w.data_size / b * b) by (nonlinear_arith)
            requires
                b > 0,
                w.data_size > 0,
                w.data_size % b == 0,
        ;
    }
}

proof fn lemma_last_chunk(data: Seq<u8>, cs: Seq<Chunk>, id: Seq<u8>, end: int)
    requires
        first_verdict(data, cs, end) is Fine,
    ensures
        last_chunk(cs, id) matches Some(c) ==> {
            &&& cs.contains(c)
            &&& c.id == id
            &&& chunk_verdict(data, c, end) is Fine
        },
    decreases cs.len(),
{
    if cs.len() > 0 {
        assert(cs =~= cs.drop_last() + seq![cs.last()]);
        lemma_first_verdict_concat(data, cs.drop_last(), seq![cs.last()], end);
        if cs.last().id == id {
            assert(cs.contains(cs.last()));
        } else {
            lemma_last_chunk(data, cs.drop_last(), id, end);
            if let Some(c) = last_chunk(cs.drop_last(), id) {
                let i = choose|i: int| 0 <= i < cs.len() - 1 && cs.drop_last()[i] == c;
                assert(cs[i] == c);
            }
        }
    }
}

proof fn lemma_chunks_begin(data: Seq<u8>, pos: int, end: int)
    ensures
        forall|c: Chunk| #[trigger] chunks(data, pos, end).contains(c) ==> c.pos >= pos && c.size >= 0,
    decreases if pos < end { end - pos } else { 0 },
{
    if pos + 8 <= end {
        let c = chunk_at(data, pos);
        let rest = chunks(data, pos + 8 + c.size + c.size % 2, end);
        lemma_chunks_begin(data, pos + 8 + c.size + c.size % 2, end);
        assert forall|d: Chunk| #[trigger] chunks(data, pos, end).contains(d) implies d.pos >= pos
            && d.size >= 0 by {
            let i = choose|i: int|
                0 <= i < chunks(data, pos, end).len() && chunks(data, pos, end)[i] == d;
            if i > 0 {
                assert(rest[i - 1] == d);
                assert(rest.contains(d));
            }
        }
    }
}

proof fn lemma_same_chunks(a: Seq<u8>, b: Seq<u8>, lo: int, pos: int, end: int)
    requires
        0 <= lo <= pos,
        end <= a.len(),
        end <= b.len(),
        forall|p: int| lo <= p < end ==> #[trigger] a[p] == b[p],
    ensures
        chunks(a, pos, end) == chunks(b, pos, end),
    decreases if pos < end { end - pos } else { 0 },
{
    if pos + 8 <= end {
        let c = chunk_at(a, pos);
        assert(a.subrange(pos, pos + 4) =~= b.subrange(pos, pos + 4));
        assert(a[pos + 4] == b[pos + 4] && a[pos + 5] == b[pos + 5] && a[pos + 6] == b[pos + 6]
            && a[pos + 7] == b[pos + 7]);
        assert(c == chunk_at(b, pos));
        lemma_same_chunks(a, b, lo, pos + 8 + c.size + c.size % 2, end);
    }
}

proof fn lemma_same_verdict(a: Seq<u8>, b: Seq<u8>, lo: int, cs: Seq<Chunk>, end: int)
    requires
        0 <= lo,
        end <= a.len(),
        end <= b.len(),
        forall|p: int| lo <= p < end ==> #[trigger] a[p] == b[p],
        forall|i: int| 0 <= i < cs.len() ==> (#[trigger] cs[i]).pos >= lo && cs[i].size >= 0,
    ensures
        first_verdict(a, cs, end) == first_verdict(b, cs, end),
    decreases cs.len(),
{
    if cs.len() > 0 {
        let c = cs[0];
        if c.pos + 8 + c.size <= end {
            assert(chunk_contents(a, c) =~= chunk_contents(b, c));
        }
        assert(chunk_verdict(a, c, end) == chunk_verdict(b, c, end));
        let rest = cs.drop_first();
        assert forall|i: int| 0 <= i < rest.len() implies (#[trigger] rest[i]).pos >= lo
            && rest[i].size >= 0 by {
            assert(rest[i] == cs[i + 1]);
        }
        lemma_same_verdict(a, b, lo, rest, end);
    }
}

/// A sound is told by its own bytes alone.
pub proof fn sounds_depend_on_their_bytes(a: Seq<u8>, b: Seq<u8>, w: Wave)
    requires
        0 <= w.offset,
        wave_at(a, w.offset) == Ok::<Option<Wave>, Error>(Some(w)),
        w.end <= b.len(),
        forall|p: int| w.offset <= p < w.end ==> #[trigger] a[p] == b[p],
    ensures
        wave_at(b, w.offset) == Ok::<Option<Wave>, Error>(Some(w)),
{
    let offset = w.offset;
    let cs = chunks(a, offset + 12, w.end);
    assert(a.subrange(offset, offset + 4) =~= b.subrange(offset, offset + 4));
    assert(a.subrange(offset + 8, offset + 12) =~= b.subrange(offset + 8, offset + 12));
    assert(a[offset + 4] == b[offset + 4] && a[offset + 5] == b[offset + 5] && a[offset + 6]
        == b[offset + 6] && a[offset + 7] == b[offset + 7]);
    lemma_same_chunks(a, b, offset, offset + 12, w.end);
    lemma_chunks_begin(a, offset + 12, w.end);
    assert forall|i: int| 0 <= i < cs.len() implies (#[trigger] cs[i]).pos >= offset
        && cs[i].size >= 0 by {
        assert(cs.contains(cs[i]));
    }
    lemma_same_verdict(a, b, offset, cs, w.end);
    lemma_last_chunk(a, cs, fmt_id(), w.end);
    let f = last_chunk(cs, fmt_id())->0;
    assert(chunk_contents(a, f) =~= chunk_contents(b, f));
}

/// Asking for no length keeps every sound.
pub proof fn no_minimum_keeps_all(records: Seq<WavRecord>)
    ensures
        lasting(records, 0) == records,
    decreases records.len(),
{
    reveal(Seq::filter);
    if records.len() > 0 {
        no_minimum_keeps_all(records.drop_last());
        assert(records.drop_last().push(records.last()) =~= records);
    }
}

/// Asking for one length and then for another keeps what asking for the longer of them does.
pub proof fn minimums_combine(records: Seq<WavRecord>, a: nat, b: nat)
    ensures
        lasting(lasting(records, a), b) == lasting(records, if a < b { b } else { a }),
    decreases records.len(),
{
    reveal(Seq::filter);
    if records.len() > 0 {
        let last = records.last();
        minimums_combine(records.drop_last(), a, b);
        assert(lasts(last, a) && lasts(last, b) <==> lasts(last, if a < b { b } else { a })) by {
            let (low, high) = if a < b { (a, b) } else { (b, a) };
            assert(low * last.sample_rate <= high * last.sample_rate) by (nonlinear_arith)
                requires
                    low <= high,
                    0 <= last.sample_rate,
            ;
        }
        let kept = lasting(records.drop_last(), a);
        assert(kept.push(last).drop_last() =~= kept);
    }
}

/// Sounds of different numbers go to files of different names.
pub proof fn sounds_go_to_different_files(a: WavRecord, b: WavRecord, ms_a: nat, ms_b: nat)
    requires
        a.index != b.index,
    ensures
        a.name(ms_a) != b.name(ms_b),
{
    if a.name(ms_a) == b.name(ms_b) {
        sound_names_tell_everything(a, b, ms_a, ms_b);
    }
}

/// A format is accepted exactly where it is plain PCM of one or two channels, of 8000 to 192000
/// frames a second and of 8, 16, 24 or 32 bits a sample, with the size of a frame and the bytes a
/// second that follow from these.
pub proof fn formats_are_accepted_exactly(data: Seq<u8>)
    ensures
        format_failure(data) is None <==> {
            let (channels, rate) = (u16_le(data, 2), u32_le(data, 4));
            let (block, bits) = (u16_le(data, 12), u16_le(data, 14));
            &&& data.len() >= 16
            &&& u16_le(data, 0) == 1
            &&& channels == 1 || channels == 2
            &&& 8000 <= rate <= 192_000
            &&& bits == 8 || bits == 16 || bits == 24 || bits == 32
            &&& 8 * block == channels * bits
            &&& u32_le(data, 8) == rate * block
        },
        format_at(data) == (WavFormat {
            audio_format: u16_le(data, 0),
            channels: u16_le(data, 2),
            sample_rate: u32_le(data, 4),
            byte_rate: u32_le(data, 8),
            block_align: u16_le(data, 12),
            bits_per_sample: u16_le(data, 14),
        }),
{
    let (channels, bits) = (u16_le(data, 2) as int, u16_le(data, 14) as int);
    if (channels == 1 || channels == 2) && (bits == 8 || bits == 16 || bits == 24 || bits == 32) {
        assert(channels * bits == 8 * (channels * (bits / 8))) by (nonlinear_arith)
            requires
                bits == 8 * (bits / 8),
        ;
        assert(frame_size(format_at(data)) == channels * (bits / 8));
    }
}

/// Whether the four bytes at `p` are these characters.
pub open spec fn named(data: Seq<u8>, p: int, a: char, b: char, c: char, d: char) -> bool {
    data[p] == a as int && data[p + 1] == b as int && data[p + 2] == c as int && data[p + 3]
        == d as int
}

proof fn lemma_named(data: Seq<u8>, p: int, a: char, b: char, c: char, d: char)
    requires
        0 <= p,
        p + 4 <= data.len(),
        a as int <= 0xff,
        b as int <= 0xff,
        c as int <= 0xff,
        d as int <= 0xff,
    ensures
        named(data, p, a, b, c, d) <==> data.subrange(p, p + 4) == seq![
            a as u8,
            b as u8,
            c as u8,
            d as u8,
        ],
{
    let found = data.subrange(p, p + 4);
    let name = seq![a as u8, b as u8, c as u8, d as u8];
    if named(data, p, a, b, c, d) {
        assert(found =~= name);
    }
    if found == name {
        assert(found[0] == name[0] && found[1] == name[1] && found[2] == name[2] && found[3]
            == name[3]);
    }
}

/// `places` are where the chunks before `end` begin: each lies before `end` and is followed by the
/// next, behind a byte of padding where its size is odd, and behind the last there is no room for
/// one more.
pub open spec fn chunks_stand_at(data: Seq<u8>, end: int, places: Seq<int>) -> bool {
    &&& places.len() >= 1
    &&& forall|i: int|
        0 <= i < places.len() - 1 ==> {
            let size = u32_le(data, #[trigger] places[i] + 4) as int;
            &&& places[i] + 8 + size <= end
            &&& places[i + 1] == places[i] + 8 + size + size % 2
        }
    &&& places.last() + 8 > end
}

proof fn lemma_chunks_stand_at(data: Seq<u8>, end: int, places: Seq<int>)
    requires
        chunks_stand_at(data, end, places),
    ensures
        chunks(data, places[0], end) == Seq::new(
            (places.len() - 1) as nat,
            |i: int| chunk_at(data, places[i]),
        ),
    decreases places.len(),
{
    let all = Seq::new((places.len() - 1) as nat, |i: int| chunk_at(data, places[i]));
    if places.len() == 1 {
        assert(chunks(data, places[0], end) =~= all);
    } else {
        let rest = places.drop_first();
        assert(places[0] + 8 + u32_le(data, places[0] + 4) <= end);
        assert forall|i: int| 0 <= i < rest.len() - 1 implies {
            let size = u32_le(data, #[trigger] rest[i] + 4) as int;
            &&& rest[i] + 8 + size <= end
            &&& rest[i + 1] == rest[i] + 8 + size + size % 2
        } by {
            assert(rest[i] == places[i + 1]);
            assert(rest[i + 1] == places[i + 1 + 1]);
        }
        assert(rest.last() == places.last());
        lemma_chunks_stand_at(data, end, rest);
        let later = Seq::new((rest.len() - 1) as nat, |i: int| chunk_at(data, rest[i]));
        assert(u32_le(data, places[0] + 4) >= 0);
        assert(chunks(data, places[0], end) == seq![chunk_at(data, places[0])] + chunks(
            data,
            places[1],
            end,
        ));
        assert(seq![chunk_at(data, places[0])] + later =~= all);
    }
}

proof fn lemma_all_fine(data: Seq<u8>, cs: Seq<Chunk>, end: int)
    requires
        forall|i: int| 0 <= i < cs.len() ==> chunk_verdict(data, #[trigger] cs[i], end) is Fine,
    ensures
        first_verdict(data, cs, end) is Fine,
    decreases cs.len(),
{
    if cs.len() > 0 {
        let rest = cs.drop_first();
        assert(chunk_verdict(data, cs[0], end) is Fine);
        assert forall|i: int| 0 <= i < rest.len() implies chunk_verdict(
            data,
            #[trigger] rest[i],
            end,
        ) is Fine by {
            assert(rest[i] == cs[i + 1]);
        }
        lemma_all_fine(data, rest, end);
    }
}

proof fn lemma_last_chunk_is(cs: Seq<Chunk>, id: Seq<u8>, k: int)
    requires
        0 <= k < cs.len(),
        cs[k].id == id,
        forall|i: int| k < i < cs.len() ==> (#[trigger] cs[i]).id != id,
    ensures
        last_chunk(cs, id) == Some(cs[k]),
    decreases cs.len(),
{
    if k < cs.len() - 1 {
        let shorter = cs.drop_last();
        assert(cs[cs.len() - 1].id != id);
        assert forall|i: int| k < i < shorter.len() implies (#[trigger] shorter[i]).id != id by {
            assert(shorter[i] == cs[i]);
        }
        lemma_last_chunk_is(shorter, id, k);
    }
}

/// Every sound is read, however large it is and however many chunks it has: `RIFF`, a size of at
/// least 36 that stays inside the bytes, `WAVE`, and chunks up to the end, of which each `fmt ` has
/// at least 16 bytes and gives a format that is accepted, and the last `data` is not empty and made
/// of whole frames of the last `fmt `.
pub proof fn every_sound_is_read(data: Seq<u8>, offset: int, places: Seq<int>, f: int, d: int)
    requires
        0 <= offset,
        offset + 8 + u32_le(data, offset + 4) <= data.len(),
        u32_le(data, offset + 4) >= 36,
        named(data, offset, 'R', 'I', 'F', 'F'),
        named(data, offset + 8, 'W', 'A', 'V', 'E'),
        chunks_stand_at(data, offset + 8 + u32_le(data, offset + 4), places),
        places[0] == offset + 12,
        0 <= f < places.len() - 1,
        0 <= d < places.len() - 1,
        named(data, places[f], 'f', 'm', 't', ' '),
        named(data, places[d], 'd', 'a', 't', 'a'),
        forall|i: int|
            f < i < places.len() - 1 ==> !named(data, #[trigger] places[i], 'f', 'm', 't', ' '),
        forall|i: int|
            d < i < places.len() - 1 ==> !named(data, #[trigger] places[i], 'd', 'a', 't', 'a'),
        forall|i: int|
            0 <= i < places.len() - 1 && named(data, #[trigger] places[i], 'f', 'm', 't', ' ')
                ==> {
                let size = u32_le(data, places[i] + 4) as int;
                &&& size >= 16
                &&& format_failure(
                    data.subrange(places[i] + 8, places[i] + 8 + size),
                ) is None
            },
        u32_le(data, places[d] + 4) > 0,
        u32_le(data, places[d] + 4) as int % (u16_le(data, places[f] + 20) as int) == 0,
    ensures
        wave_at(data, offset) matches Ok(Some(w)) && {
            &&& w.offset == offset
            &&& w.riff_size == u32_le(data, offset + 4)
            &&& w.end == offset + 8 + w.riff_size
            &&& w.fmt_pos == places[f]
            &&& w.data_pos == places[d]
            &&& w.data_size == u32_le(data, places[d] + 4)
            &&& w.format.audio_format == u16_le(data, places[f] + 8)
            &&& w.format.channels == u16_le(data, places[f] + 10)
            &&& w.format.sample_rate == u32_le(data, places[f] + 12)
            &&& w.format.byte_rate == u32_le(data, places[f] + 16)
            &&& w.format.block_align == u16_le(data, places[f] + 20)
            &&& w.format.bits_per_sample == u16_le(data, places[f] + 22)
        },
{
    let end = offset + 8 + u32_le(data, offset + 4);
    let cs = chunks(data, offset + 12, end);
    lemma_named(data, offset, 'R', 'I', 'F', 'F');
    lemma_named(data, offset + 8, 'W', 'A', 'V', 'E');
    assert(riff_marked(data, offset));
    lemma_chunks_stand_at(data, end, places);
    assert(first_verdict(data, cs, end) is Fine) by {
        assert forall|i: int| 0 <= i < cs.len() implies chunk_verdict(
            data,
            #[trigger] cs[i],
            end,
        ) is Fine by {
            lemma_chunk_facts(data, offset, end, places, i);
            if cs[i].id == fmt_id() {
                assert(named(data, places[i], 'f', 'm', 't', ' '));
            }
        }
        lemma_all_fine(data, cs, end);
    }
    lemma_chunk_facts(data, offset, end, places, f);
    lemma_chunk_facts(data, offset, end, places, d);
    assert(last_chunk(cs, fmt_id()) == Some(cs[f])) by {
        assert forall|i: int| f < i < cs.len() implies (#[trigger] cs[i]).id != fmt_id() by {
            lemma_chunk_facts(data, offset, end, places, i);
            assert(!named(data, places[i], 'f', 'm', 't', ' '));
        }
        lemma_last_chunk_is(cs, fmt_id(), f);
    }
    assert(last_chunk(cs, data_id()) == Some(cs[d])) by {
        assert forall|i: int| d < i < cs.len() implies (#[trigger] cs[i]).id != data_id() by {
            lemma_chunk_facts(data, offset, end, places, i);
            assert(!named(data, places[i], 'd', 'a', 't', 'a'));
        }
        lemma_last_chunk_is(cs, data_id(), d);
    }
    assert(u32_le(data, places[f] + 4) >= 16) by {
        assert(named(data, places[f], 'f', 'm', 't', ' '));
    }
    lemma_contents_format(data, places[f] + 8, cs[f].size);
}

proof fn lemma_chunk_facts(data: Seq<u8>, offset: int, end: int, places: Seq<int>, i: int)
    requires
        0 <= offset,
        end <= data.len(),
        chunks_stand_at(data, end, places),
        places[0] == offset + 12,
        0 <= i < places.len() - 1,
    ensures
        ({
            let c = chunks(data, offset + 12, end)[i];
            &&& c.pos == places[i]
            &&& offset + 12 <= places[i]
            &&& places[i] + 8 + c.size <= end
            &&& c.size == u32_le(data, places[i] + 4)
            &&& c.id == fmt_id() <==> named(data, places[i], 'f', 'm', 't', ' ')
            &&& c.id == data_id() <==> named(data, places[i], 'd', 'a', 't', 'a')
        }),
{
    let cs = chunks(data, offset + 12, end);
    lemma_chunks_stand_at(data, end, places);
    lemma_chunks_begin(data, offset + 12, end);
    assert(cs[i] == chunk_at(data, places[i]));
    assert(cs.contains(cs[i]));
    assert(places[i] + 8 + u32_le(data, places[i] + 4) <= end);
    lemma_named(data, places[i], 'f', 'm', 't', ' ');
    lemma_named(data, places[i], 'd', 'a', 't', 'a');
}

proof fn lemma_contents_format(data: Seq<u8>, at: int, size: int)
    requires
        0 <= at,
        16 <= size,
        at + size <= data.len(),
    ensures
        format_at(data.subrange(at, at + size)) == (WavFormat {
            audio_format: u16_le(data, at),
            channels: u16_le(data, at + 2),
            sample_rate: u32_le(data, at + 4),
            byte_rate: u32_le(data, at + 8),
            block_align: u16_le(data, at + 12),
            bits_per_sample: u16_le(data, at + 14),
        }),
{
    let contents = data.subrange(at, at + size);
    assert forall|i: int| 0 <= i < 16 implies contents[i] == data[at + i] by {}
}

/// What is read as a sound is one: it begins with `RIFF`, its size and `WAVE`, has at least 44
/// bytes, lies inside the bytes, and holds a `fmt ` and a `data` chunk, of which the first gives
/// plain PCM as it is accepted and the second holds whole frames of it.
pub proof fn only_sounds_are_read(data: Seq<u8>, offset: int)
    requires
        0 <= offset,
    ensures
        wave_at(data, offset) matches Ok(Some(w)) ==> {
            &&& w.offset == offset
            &&& named(data, offset, 'R', 'I', 'F', 'F')
            &&& named(data, offset + 8, 'W', 'A', 'V', 'E')
            &&& w.riff_size == u32_le(data, offset + 4)
            &&& w.end == offset + 8 + w.riff_size
            &&& offset + 44 <= w.end <= data.len()
            &&& named(data, w.fmt_pos, 'f', 'm', 't', ' ')
            &&& named(data, w.data_pos, 'd', 'a', 't', 'a')
            &&& w.data_size == u32_le(data, w.data_pos + 4)
            &&& w.data_size > 0
            &&& w.data_size % (w.format.block_align as int) == 0
            &&& w.format.audio_format == 1
            &&& w.format.channels == 1 || w.format.channels == 2
            &&& 8000 <= w.format.sample_rate <= 192_000
            &&& w.format.bits_per_sample == 8 || w.format.bits_per_sample == 16
                || w.format.bits_per_sample == 24 || w.format.bits_per_sample == 32
            &&& 8 * w.format.block_align == w.format.channels * w.format.bits_per_sample
            &&& w.format.byte_rate == w.format.sample_rate * w.format.block_align
            &&& w.format.channels == u16_le(data, w.fmt_pos + 10)
            &&& w.format.sample_rate == u32_le(data, w.fmt_pos + 12)
            &&& w.format.bits_per_sample == u16_le(data, w.fmt_pos + 22)
        },
{
    if let Ok(Some(w)) = wave_at(data, offset) {
        let cs = chunks(data, offset + 12, w.end);
        waves_hold_whole_frames(data, offset);
        lemma_named(data, offset, 'R', 'I', 'F', 'F');
        lemma_named(data, offset + 8, 'W', 'A', 'V', 'E');
        lemma_last_chunk(data, cs, fmt_id(), w.end);
        lemma_last_chunk(data, cs, data_id(), w.end);
        lemma_chunks_are_at_their_places(data, offset + 12, w.end);
        lemma_named(data, w.fmt_pos, 'f', 'm', 't', ' ');
        lemma_named(data, w.data_pos, 'd', 'a', 't', 'a');
        let f = last_chunk(cs, fmt_id())->0;
        let d = last_chunk(cs, data_id())->0;
        assert(f == chunk_at(data, f.pos) && d == chunk_at(data, d.pos));
        let whole = data.subrange(w.fmt_pos + 8, w.end);
        formats_are_accepted_exactly(whole);
        lemma_contents_format(data, w.fmt_pos + 8, w.end - w.fmt_pos - 8);
    }
}

proof fn lemma_chunks_are_at_their_places(data: Seq<u8>, pos: int, end: int)
    ensures
        forall|c: Chunk| #[trigger] chunks(data, pos, end).contains(c) ==> c == chunk_at(data, c.pos),
    decreases if pos < end { end - pos } else { 0 },
{
    if pos + 8 <= end {
        let c = chunk_at(data, pos);
        let rest = chunks(data, pos + 8 + c.size + c.size % 2, end);
        lemma_chunks_are_at_their_places(data, pos + 8 + c.size + c.size % 2, end);
        assert forall|d: Chunk| #[trigger] chunks(data, pos, end).contains(d) implies d
            == chunk_at(data, d.pos) by {
            let i = choose|i: int|
                0 <= i < chunks(data, pos, end).len() && chunks(data, pos, end)[i] == d;
            if i > 0 {
                assert(rest[i - 1] == d);
                assert(rest.contains(d));
            }
        }
    }
}

/// A sound is refused only for a `fmt ` chunk in it whose format is not accepted.
pub proof fn sounds_are_refused_for_their_format(data: Seq<u8>, offset: int)
    requires
        0 <= offset,
    ensures
        wave_at(data, offset) matches Err(e) ==> exists|p: int|
            {
                &&& offset + 12 <= p
                &&& p + 24 <= data.len()
                &&& #[trigger] named(data, p, 'f', 'm', 't', ' ')
                &&& format_failure(
                    data.subrange(p + 8, p + 8 + u32_le(data, p + 4)),
                ) == Some(e)
            },
{
    if let Err(e) = wave_at(data, offset) {
        let end = offset + 8 + u32_le(data, offset + 4);
        let cs = chunks(data, offset + 12, end);
        let k = lemma_verdict_of(data, cs, end);
        lemma_chunks_begin(data, offset + 12, end);
        lemma_chunks_are_at_their_places(data, offset + 12, end);
        assert(cs.contains(cs[k]));
        let p = cs[k].pos;
        lemma_named(data, p, 'f', 'm', 't', ' ');
        assert(named(data, p, 'f', 'm', 't', ' '));
    }
}

proof fn lemma_verdict_of(data: Seq<u8>, cs: Seq<Chunk>, end: int) -> (k: int)
    requires
        first_verdict(data, cs, end) !is Fine,
    ensures
        0 <= k < cs.len(),
        first_verdict(data, cs, end) == chunk_verdict(data, cs[k], end),
    decreases cs.len(),
{
    if chunk_verdict(data, cs[0], end) is Fine {
        let k = lemma_verdict_of(data, cs.drop_first(), end);
        k + 1
    } else {
        0
    }
}

/// A search ends before the end of the section only at a sound that is refused, and a search that
/// does not passes over no such sound, but inside another one that it finds.
pub proof fn searches_fail_at_refused_sounds(data: Seq<u8>, start: int, offset: int)
    requires
        0 <= start <= offset,
    ensures
        wave_search(data, start).failure matches Some(e) ==> exists|off: int|
            start <= off && #[trigger] wave_at(data, off) == Err::<Option<Wave>, Error>(e),
        wave_search(data, start).failure is None && wave_at(data, offset) is Err ==> exists|i: int|
            0 <= i < wave_search(data, start).found.len() && (
            #[trigger] wave_search(data, start).found[i]).offset <= offset < wave_search(
                data,
                start,
            ).found[i].end,
    decreases data.len() - start,
{
    let found = wave_search(data, start).found;
    if start + 12 <= data.len() {
        match wave_at(data, start) {
            Ok(Some(w)) => {
                assert(found == seq![w] + wave_search(data, w.end).found);
                assert(found[0] == w);
                let next = if offset < w.end {
                    w.end
                } else {
                    offset
                };
                searches_fail_at_refused_sounds(data, w.end, next);
                if offset >= w.end && wave_search(data, start).failure is None && wave_at(
                    data,
                    offset,
                ) is Err {
                    let i = choose|i: int|
                        0 <= i < wave_search(data, w.end).found.len() && (
                        #[trigger] wave_search(data, w.end).found[i]).offset <= offset
                            < wave_search(data, w.end).found[i].end;
                    assert(found[i + 1] == wave_search(data, w.end).found[i]);
                }
            },
            Ok(None) => {
                let next = if offset == start {
                    start + 1
                } else {
                    offset
                };
                searches_fail_at_refused_sounds(data, start + 1, next);
            },
            Err(e) => {
                assert(wave_at(data, start) == Err::<Option<Wave>, Error>(e));
            },
        }
    }
}

/// A sound lasts as many milliseconds as its frames take at its rate, rounded down, and no more.
pub proof fn sounds_last_as_their_frames_take(record: WavRecord, ms: nat)
    requires
        record.sample_rate > 0,
    ensures
        lasts(record, ms) <==> ms <= 1000 * record.sample_frames / (record.sample_rate as int),
{
    let (m, rate, time) = (ms as int, record.sample_rate as int, 1000 * record.sample_frames);
    vstd::arithmetic::div_mod::lemma_fundamental_div_mod(time, rate);
    vstd::arithmetic::div_mod::lemma_mod_bound(time, rate);
    let q = time / rate;
    assert(m <= q <==> m * rate <= time) by (nonlinear_arith)
        requires
            time == rate * q + time % rate,
            0 <= time % rate < rate,
    ;
}

/// The name of a sound's file tells all that it is made of.
pub proof fn sound_names_tell_everything(a: WavRecord, b: WavRecord, ms_a: nat, ms_b: nat)
    requires
        a.name(ms_a) == b.name(ms_b),
    ensures
        a.index == b.index,
        a.clean_abs_offset == b.clean_abs_offset,
        a.original_abs_offset == b.original_abs_offset,
        a.sample_rate == b.sample_rate,
        a.channels == b.channels,
        a.bits_per_sample == b.bits_per_sample,
        ms_a == ms_b,
{
    reveal_strlit("wav_");
    reveal_strlit("_clean_");
    reveal_strlit("_orig_");
    reveal_strlit("_");
    reveal_strlit("hz_");
    reveal_strlit("ch_");
    reveal_strlit("bit_");
    reveal_strlit("ms.wav");
    let x = name_parts(a, ms_a);
    let y = name_parts(b, ms_b);
    lemma_name_parts(a, ms_a);
    lemma_name_parts(b, ms_b);
    names_tell_their_numbers("wav_"@, a.index as nat, b.index as nat, 3, x.0, y.0);
    names_tell_their_numbers(
        "_clean_"@,
        a.clean_abs_offset as nat,
        b.clean_abs_offset as nat,
        8,
        x.1,
        y.1,
    );
    names_tell_their_numbers(
        "_orig_"@,
        a.original_abs_offset as nat,
        b.original_abs_offset as nat,
        8,
        x.2,
        y.2,
    );
    names_tell_their_numbers("_"@, a.sample_rate as nat, b.sample_rate as nat, 0, x.3, y.3);
    names_tell_their_numbers("hz_"@, a.channels as nat, b.channels as nat, 0, x.4, y.4);
    names_tell_their_numbers(
        "ch_"@,
        a.bits_per_sample as nat,
        b.bits_per_sample as nat,
        0,
        x.5,
        y.5,
    );
    names_tell_their_numbers("bit_"@, ms_a, ms_b, 0, x.6, y.6);
}

/// What follows each number in the name of a sound's file.
spec fn name_parts(r: WavRecord, ms: nat) -> (
    Seq<char>,
    Seq<char>,
    Seq<char>,
    Seq<char>,
    Seq<char>,
    Seq<char>,
    Seq<char>,
) {
    let p6 = "ms.wav"@;
    let p5 = "bit_"@ + decimal(ms, 0) + p6;
    let p4 = "ch_"@ + decimal(r.bits_per_sample as nat, 0) + p5;
    let p3 = "hz_"@ + decimal(r.channels as nat, 0) + p4;
    let p2 = "_"@ + decimal(r.sample_rate as nat, 0) + p3;
    let p1 = "_orig_"@ + hexadecimal(r.original_abs_offset as nat, 8) + p2;
    let p0 = "_clean_"@ + hexadecimal(r.clean_abs_offset as nat, 8) + p1;
    (p0, p1, p2, p3, p4, p5, p6)
}

proof fn lemma_name_parts(r: WavRecord, ms: nat)
    ensures
        r.name(ms) == "wav_"@ + decimal(r.index as nat, 3) + name_parts(r, ms).0,
{
    let p = name_parts(r, ms);
    let f0 = "wav_"@ + decimal(r.index as nat, 3);
    let f1 = f0 + "_clean_"@ + hexadecimal(r.clean_abs_offset as nat, 8);
    let f2 = f1 + "_orig_"@ + hexadecimal(r.original_abs_offset as nat, 8);
    let f3 = f2 + "_"@ + decimal(r.sample_rate as nat, 0);
    let f4 = f3 + "hz_"@ + decimal(r.channels as nat, 0);
    let f5 = f4 + "ch_"@ + decimal(r.bits_per_sample as nat, 0);
    lemma_regroup(f5, "bit_"@, decimal(ms, 0), p.6);
    lemma_regroup(f4, "ch_"@, decimal(r.bits_per_sample as nat, 0), p.5);
    lemma_regroup(f3, "hz_"@, decimal(r.channels as nat, 0), p.4);
    lemma_regroup(f2, "_"@, decimal(r.sample_rate as nat, 0), p.3);
    lemma_regroup(f1, "_orig_"@, hexadecimal(r.original_abs_offset as nat, 8), p.2);
    lemma_regroup(f0, "_clean_"@, hexadecimal(r.clean_abs_offset as nat, 8), p.1);
}

/// A format is refused for what stands in it: the value that is reported is the one found, and it
/// is not one of those accepted.
pub proof fn refused_formats_are_reported_as_found(data: Seq<u8>)
    ensures
        match format_failure(data) {
            None => true,
            Some(Error::FmtChunkTooSmall) => data.len() < 16,
            Some(Error::UnsupportedAudioFormat { audio_format }) => audio_format == u16_le(data, 0)
                && audio_format != 1,
            Some(Error::InvalidChannelCount { channels }) => channels == u16_le(data, 2) && channels
                != 1 && channels != 2,
            Some(Error::InvalidSampleRate { sample_rate }) => sample_rate == u32_le(data, 4) && (
            sample_rate < 8000 || sample_rate > 192_000),
            Some(Error::InvalidBitsPerSample { bits_per_sample }) => bits_per_sample == u16_le(
                data,
                14,
            ) && bits_per_sample != 8 && bits_per_sample != 16 && bits_per_sample != 24
                && bits_per_sample != 32,
            Some(Error::BlockAlignMismatch { block_align, expected_block_align }) => block_align
                == u16_le(data, 12) && 8 * expected_block_align == u16_le(data, 2) * u16_le(
                data,
                14,
            ) && block_align != expected_block_align,
            Some(Error::ByteRateMismatch { byte_rate, expected_byte_rate }) => byte_rate == u32_le(
                data,
                8,
            ) && expected_byte_rate == u32_le(data, 4) * u16_le(data, 12) && byte_rate
                != expected_byte_rate,
            Some(_) => false,
        },
{
    let (channels, bits) = (u16_le(data, 2) as int, u16_le(data, 14) as int);
    let rate = u32_le(data, 4) as int;
    let size = frame_size(format_at(data));
    if (channels == 1 || channels == 2) && (bits == 8 || bits == 16 || bits == 24 || bits == 32) {
        let bytes = bits / 8;
        assert(channels * bits == 8 * (channels * bytes)) by (nonlinear_arith)
            requires
                bits == 8 * bytes,
        ;
        assert(1 <= channels * bytes <= 8) by (nonlinear_arith)
            requires
                1 <= channels <= 2,
                1 <= bytes <= 4,
        ;
        assert(size == channels * bytes);
        if 8000 <= rate <= 192_000 {
            assert(0 <= rate * size <= 192_000 * 8) by (nonlinear_arith)
                requires
                    0 <= rate <= 192_000,
                    1 <= size <= 8,
            ;
        }
    }
}

/// A record tells where its sound begins and ends, in numbers and in texts that give the same
/// numbers, and how many frames it holds.
pub proof fn records_tell_their_sounds(
    data: Seq<u8>,
    record: WavRecord,
    index: int,
    w: Wave,
    bina_abs_offset: int,
)
    requires
        0 <= w.offset,
        0 <= bina_abs_offset,
        wave_at(data, w.offset) == Ok::<Option<Wave>, Error>(Some(w)),
        wave_record(record, index, w, bina_abs_offset),
    ensures
        record.index == index,
        record.clean_bina_offset == w.offset,
        record.end_clean_bina_offset == w.end,
        record.clean_bina_offset + record.wav_size == record.end_clean_bina_offset,
        record.wav_size == 8 + record.riff_size,
        record.clean_abs_offset == bina_abs_offset + record.clean_bina_offset,
        record.original_abs_offset == original_abs(w.offset, bina_abs_offset),
        hex_number(record.clean_bina_offset_hex@) == Ok::<nat, HexError>(
            record.clean_bina_offset as nat,
        ),
        hex_number(record.clean_abs_offset_hex@) == Ok::<nat, HexError>(
            record.clean_abs_offset as nat,
        ),
        hex_number(record.original_abs_offset_hex@) == Ok::<nat, HexError>(
            record.original_abs_offset as nat,
        ),
        record.sample_frames >= 1,
        record.sample_frames * record.block_align == record.data_size,
        8 * record.block_align == record.channels * record.bits_per_sample,
        record.byte_rate == record.sample_rate * record.block_align,
{
    waves_hold_whole_frames(data, w.offset);
    only_sounds_are_read(data, w.offset);
    written_offsets_are_read_back(record.clean_bina_offset as nat, 8);
    written_offsets_are_read_back(record.clean_abs_offset as nat, 8);
    written_offsets_are_read_back(record.original_abs_offset as nat, 8);
}

} // verus!
