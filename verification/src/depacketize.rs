//! The frame wrapper in the tail of the BINA section.
//!
//! From a fixed place on, the section is cut into frames of a header and a payload. The clean
//! section is the raw one without the frame headers.

use vstd::prelude::*;

verus! {

/// Where the frames begin, relative to the section.
pub const FRAME_START_BINA_REL: usize = 0x00fa6e3c;

/// The size of a frame's header.
pub const FRAME_HEADER_SIZE: usize = 0x1c;

/// The size of a frame's payload.
pub const FRAME_PAYLOAD_SIZE: usize = 0x200;

/// The size of a frame.
pub const FRAME_SIZE: usize = FRAME_HEADER_SIZE + FRAME_PAYLOAD_SIZE;

/// Where frame `i` begins in the raw section.
pub open spec fn frame_position(i: int) -> int {
    FRAME_START_BINA_REL + i * FRAME_SIZE
}

/// Whether a whole frame stands at place `i`.
pub open spec fn frame_present(bina: Seq<u8>, i: int) -> bool {
    &&& frame_position(i) + FRAME_SIZE <= bina.len()
    &&& bina[frame_position(i) + 2] == 0x00
    &&& bina[frame_position(i) + 3] == 0x04
}

/// The number of frames that follow one another from place `i` on.
pub open spec fn frames_from(bina: Seq<u8>, i: nat) -> nat
    decreases bina.len() - i,
{
    if frame_present(bina, i as int) {
        proof {
            frames_follow_one_another(i as int);
        }
        1 + frames_from(bina, i + 1)
    } else {
        0
    }
}

/// The number of frames in the section.
pub open spec fn frame_count(bina: Seq<u8>) -> nat {
    frames_from(bina, 0)
}

/// Where the byte at `j` of the clean section stands in a raw section of `frames` frames.
pub open spec fn raw_position(frames: nat, j: int) -> int {
    if j < FRAME_START_BINA_REL {
        j
    } else if j < FRAME_START_BINA_REL + frames * FRAME_PAYLOAD_SIZE {
        framed_position(j)
    } else {
        j + frames * FRAME_HEADER_SIZE
    }
}

/// Where the byte at `j` of the clean section stands in the raw one, if it is the payload of a
/// frame.
pub open spec fn framed_position(j: int) -> int {
    let delta = j - FRAME_START_BINA_REL;
    FRAME_START_BINA_REL + delta / (FRAME_PAYLOAD_SIZE as int) * FRAME_SIZE + FRAME_HEADER_SIZE
        + delta % (FRAME_PAYLOAD_SIZE as int)
}

/// The section without its frame headers.
pub open spec fn clean_section(bina: Seq<u8>) -> Seq<u8> {
    Seq::new(
        (bina.len() - frame_count(bina) * FRAME_HEADER_SIZE) as nat,
        |j: int| bina[raw_position(frame_count(bina), j)],
    )
}

/// The absolute place in the file of the byte at `clean_rel` of the clean section, counted as
/// if the frames never ended.
pub open spec fn original_abs(clean_rel: int, bina_abs_offset: int) -> int {
    bina_abs_offset + if clean_rel < FRAME_START_BINA_REL {
        clean_rel
    } else {
        framed_position(clean_rel)
    }
}

/// Frames follow one another without a gap.
pub proof fn frames_follow_one_another(i: int)
    requires
        0 <= i,
    ensures
        frame_position(0) == FRAME_START_BINA_REL,
        frame_position(i + 1) == frame_position(i) + FRAME_SIZE,
        frame_position(i) >= FRAME_START_BINA_REL + i,
{
    assert(0 * FRAME_SIZE == 0 && (i + 1) * FRAME_SIZE == i * FRAME_SIZE + FRAME_SIZE)
        by (nonlinear_arith);
    assert(i * FRAME_SIZE >= i) by (nonlinear_arith)
        requires
            0 <= i,
            1 <= FRAME_SIZE,
    ;
}

/// Where the payload of frame `f` stands in the clean section and in the raw one.
proof fn lemma_framed(f: int, j: int)
    requires
        0 <= f,
        FRAME_START_BINA_REL + f * FRAME_PAYLOAD_SIZE <= j < FRAME_START_BINA_REL + f
            * FRAME_PAYLOAD_SIZE + FRAME_PAYLOAD_SIZE,
    ensures
        framed_position(j) == frame_position(f) + FRAME_HEADER_SIZE + (j - FRAME_START_BINA_REL - f
            * FRAME_PAYLOAD_SIZE),
{
    vstd::arithmetic::div_mod::lemma_fundamental_div_mod_converse(
        j - FRAME_START_BINA_REL,
        FRAME_PAYLOAD_SIZE as int,
        f,
        j - FRAME_START_BINA_REL - f * FRAME_PAYLOAD_SIZE,
    );
}

/// The frame whose payload holds the byte at `j` of the clean section.
proof fn lemma_frame_of(j: int) -> (f: int)
    requires
        FRAME_START_BINA_REL <= j,
    ensures
        f == (j - FRAME_START_BINA_REL) / (FRAME_PAYLOAD_SIZE as int),
        0 <= f,
        FRAME_START_BINA_REL + f * FRAME_PAYLOAD_SIZE <= j < FRAME_START_BINA_REL + f
            * FRAME_PAYLOAD_SIZE + FRAME_PAYLOAD_SIZE,
{
    let d = j - FRAME_START_BINA_REL;
    let payload = FRAME_PAYLOAD_SIZE as int;
    vstd::arithmetic::div_mod::lemma_fundamental_div_mod(d, payload);
    vstd::arithmetic::div_mod::lemma_mod_bound(d, payload);
    vstd::arithmetic::div_mod::lemma_div_pos_is_pos(d, payload);
    let f = d / payload;
    assert(payload * f == f * payload) by (nonlinear_arith);
    f
}

/// Earlier frames stand before later ones.
proof fn lemma_frame_order(f: int, g: int)
    requires
        0 <= f < g,
    ensures
        frame_position(f) + FRAME_SIZE <= frame_position(g),
        f * FRAME_PAYLOAD_SIZE + FRAME_PAYLOAD_SIZE <= g * FRAME_PAYLOAD_SIZE,
{
    assert(f * FRAME_SIZE + FRAME_SIZE <= g * FRAME_SIZE && f * FRAME_PAYLOAD_SIZE
        + FRAME_PAYLOAD_SIZE <= g * FRAME_PAYLOAD_SIZE) by (nonlinear_arith)
        requires
            f + 1 <= g,
            0 <= FRAME_SIZE,
            0 <= FRAME_PAYLOAD_SIZE,
    ;
}

/// A frame is its header and its payload.
proof fn lemma_frame_parts(n: int)
    requires
        0 <= n,
    ensures
        n * FRAME_SIZE == n * FRAME_HEADER_SIZE + n * FRAME_PAYLOAD_SIZE,
        (n + 1) * FRAME_PAYLOAD_SIZE == n * FRAME_PAYLOAD_SIZE + FRAME_PAYLOAD_SIZE,
        0 <= n * FRAME_HEADER_SIZE,
        0 <= n * FRAME_PAYLOAD_SIZE,
{
    assert(n * FRAME_SIZE == n * FRAME_HEADER_SIZE + n * FRAME_PAYLOAD_SIZE) by (nonlinear_arith)
        requires
            FRAME_SIZE == FRAME_HEADER_SIZE + FRAME_PAYLOAD_SIZE,
    ;
    assert((n + 1) * FRAME_PAYLOAD_SIZE == n * FRAME_PAYLOAD_SIZE + FRAME_PAYLOAD_SIZE)
        by (nonlinear_arith);
    assert(0 <= n * FRAME_HEADER_SIZE && 0 <= n * FRAME_PAYLOAD_SIZE) by (nonlinear_arith)
        requires
            0 <= n,
            0 <= FRAME_HEADER_SIZE,
            0 <= FRAME_PAYLOAD_SIZE,
    ;
}

proof fn lemma_frames_run(bina: Seq<u8>, i: nat)
    ensures
        forall|k: int| i <= k < i + frames_from(bina, i) ==> frame_present(bina, k),
        !frame_present(bina, (i + frames_from(bina, i)) as int),
    decreases bina.len() - i,
{
    if frame_present(bina, i as int) {
        frames_follow_one_another(i as int);
        lemma_frames_run(bina, i + 1);
    }
}

/// A run of frames that ends at a place without one is all the frames there are.
pub proof fn lemma_frame_count_is(bina: Seq<u8>, n: nat)
    requires
        forall|k: int| 0 <= k < n ==> frame_present(bina, k),
        !frame_present(bina, n as int),
    ensures
        frame_count(bina) == n,
{
    lemma_frames_run(bina, 0);
    if frame_count(bina) < n {
        assert(frame_present(bina, frame_count(bina) as int));
    }
}

/// Strips the frame headers off the section.
pub fn depacketize_bina(bina: &[u8]) -> (r: Vec<u8>)
    ensures
        r@ == clean_section(bina@),
{
    if bina.len() <= FRAME_START_BINA_REL {
        let r = vstd::slice::slice_to_vec(bina);
        proof {
            frames_follow_one_another(0);
            lemma_frame_count_is(bina@, 0);
            lemma_frame_parts(0);
            unframed_sections_are_clean(bina@);
        }
        assert(r@ =~= clean_section(bina@));
        return r;
    }
    let mut out = vstd::slice::slice_to_vec(
        vstd::slice::slice_subrange(bina, 0, FRAME_START_BINA_REL),
    );
    let mut pos: usize = FRAME_START_BINA_REL;
    let ghost mut n: nat = 0;
    proof {
        frames_follow_one_another(0);
        lemma_frame_parts(0);
    }
    while bina.len() - pos >= FRAME_SIZE
        invariant
            pos == frame_position(n as int),
            pos <= bina@.len(),
            forall|k: int| 0 <= k < n ==> frame_present(bina@, k),
            out@.len() == FRAME_START_BINA_REL + n * FRAME_PAYLOAD_SIZE,
            forall|j: int| 0 <= j < out@.len() ==> #[trigger] out@[j] == bina@[raw_position(n, j)],
        ensures
            !frame_present(bina@, n as int),
        decreases bina@.len() - pos,
    {
        if bina[pos + 2] != 0x00 || bina[pos + 3] != 0x04 {
            break;
        }
        let ghost before = out@;
        out.extend_from_slice(
            vstd::slice::slice_subrange(bina, pos + FRAME_HEADER_SIZE, pos + FRAME_SIZE),
        );
        proof {
            assert(frame_present(bina@, n as int));
            frames_follow_one_another(n as int);
            lemma_frame_parts(n as int);
            assert forall|j: int| 0 <= j < out@.len() implies #[trigger] out@[j]
                == bina@[raw_position(n + 1, j)] by {
                if j < before.len() {
                    assert(out@[j] == before[j]);
                    assert(raw_position(n + 1, j) == raw_position(n, j));
                } else {
                    lemma_framed(n as int, j);
                    assert(raw_position(n + 1, j) == framed_position(j));
                    assert(out@[j] == bina@[pos + FRAME_HEADER_SIZE + (j - before.len())]);
                }
            }
            n = n + 1;
        }
        pos += FRAME_SIZE;
    }
    let ghost before = out@;
    out.extend_from_slice(vstd::slice::slice_subrange(bina, pos, bina.len()));
    proof {
        lemma_frame_count_is(bina@, n);
        lemma_frame_parts(n as int);
        assert forall|j: int| 0 <= j < out@.len() implies #[trigger] out@[j]
            == bina@[raw_position(n, j)] by {
            if j < before.len() {
                assert(out@[j] == before[j]);
            } else {
                assert(out@[j] == bina@[pos + (j - before.len())]);
                assert(raw_position(n, j) == pos + (j - before.len()));
            }
        }
        assert(out@ =~= clean_section(bina@));
    }
    out
}

/// Where the byte at `clean_rel` of the clean section stands in the firmware file.
///
/// The place is right for every byte before the frames and in them; see
/// [`clean_bytes_are_found`].
pub fn clean_bina_rel_to_original_abs(clean_rel: usize, bina_abs_offset: usize) -> (r: usize)
    requires
        original_abs(clean_rel as int, bina_abs_offset as int) <= usize::MAX,
    ensures
        r == original_abs(clean_rel as int, bina_abs_offset as int),
{
    if clean_rel < FRAME_START_BINA_REL {
        return bina_abs_offset + clean_rel;
    }
    let delta = clean_rel - FRAME_START_BINA_REL;
    let q = delta / FRAME_PAYLOAD_SIZE;
    let r = delta % FRAME_PAYLOAD_SIZE;
    bina_abs_offset + FRAME_START_BINA_REL + q * FRAME_SIZE + FRAME_HEADER_SIZE + r
}

/// Whether the place in the file of the byte at `clean_rel` of the clean section, or of any byte
/// before it, can be counted.
pub fn place_is_countable(clean_rel: usize, bina_abs_offset: usize) -> (r: bool)
    ensures
        r == (original_abs(clean_rel as int, bina_abs_offset as int) <= usize::MAX),
        r ==> forall|j: int|
            0 <= j <= clean_rel ==> #[trigger] original_abs(j, bina_abs_offset as int)
                <= usize::MAX,
{
    proof {
        assert forall|j: int| 0 <= j < clean_rel implies #[trigger] original_abs(
            j,
            bina_abs_offset as int,
        ) < original_abs(clean_rel as int, bina_abs_offset as int) by {
            places_are_in_order(j, clean_rel as int, bina_abs_offset as int);
        }
    }
    if clean_rel < FRAME_START_BINA_REL {
        return clean_rel <= usize::MAX - bina_abs_offset;
    }
    let delta = clean_rel - FRAME_START_BINA_REL;
    let q = delta / FRAME_PAYLOAD_SIZE;
    let r = delta % FRAME_PAYLOAD_SIZE;
    assert(q * FRAME_SIZE <= 0xffff_ffff_ffff_ffff * 0x21c) by (nonlinear_arith)
        requires
            0 <= q <= 0xffff_ffff_ffff_ffff,
            FRAME_SIZE == 0x21c,
    ;
    let place = bina_abs_offset as u128 + FRAME_START_BINA_REL as u128 + q as u128
        * FRAME_SIZE as u128 + FRAME_HEADER_SIZE as u128 + r as u128;
    place <= usize::MAX as u128
}

/// How much of the clean section stands before the frames and in them. What is left is what
/// follows the last frame.
pub open spec fn mapped_len(bina: Seq<u8>) -> int {
    let end = FRAME_START_BINA_REL + frame_count(bina) * FRAME_PAYLOAD_SIZE;
    if end < clean_section(bina).len() {
        end
    } else {
        clean_section(bina).len() as int
    }
}

/// The clean section is shorter than the raw one by the headers of its frames, all of which lie
/// inside it.
pub proof fn only_headers_are_stripped(bina: Seq<u8>)
    ensures
        frame_count(bina) > 0 ==> frame_position(frame_count(bina) as int) <= bina.len(),
        clean_section(bina).len() == bina.len() - frame_count(bina) * FRAME_HEADER_SIZE,
        clean_section(bina).len() <= bina.len(),
{
    let n = frame_count(bina) as int;
    lemma_frames_run(bina, 0);
    lemma_frame_parts(n);
    if n > 0 {
        assert(frame_present(bina, n - 1));
        frames_follow_one_another(n - 1);
    }
}

proof fn lemma_mapped(bina: Seq<u8>, j: int)
    requires
        0 <= j < mapped_len(bina),
    ensures
        raw_position(frame_count(bina), j) == original_abs(j, 0),
        0 <= original_abs(j, 0) < bina.len(),
{
    let n = frame_count(bina) as int;
    only_headers_are_stripped(bina);
    lemma_frame_parts(n);
    if j >= FRAME_START_BINA_REL {
        let f = lemma_frame_of(j);
        lemma_framed(f, j);
        assert(f < n) by {
            if n < f {
                lemma_frame_order(n, f);
            }
        }
        lemma_frame_order(f, n);
        frames_follow_one_another(f);
    }
}

/// Each byte of the clean section before the frames and in them is the byte of the file at its
/// place.
pub proof fn clean_bytes_are_found(file: Seq<u8>, bina_abs_offset: int, bina: Seq<u8>, j: int)
    requires
        0 <= bina_abs_offset,
        bina_abs_offset + bina.len() <= file.len(),
        bina == file.subrange(bina_abs_offset, bina_abs_offset + bina.len()),
        0 <= j < mapped_len(bina),
    ensures
        bina_abs_offset <= original_abs(j, bina_abs_offset) < bina_abs_offset + bina.len(),
        file[original_abs(j, bina_abs_offset)] == clean_section(bina)[j],
{
    lemma_mapped(bina, j);
    only_headers_are_stripped(bina);
    assert(bina[original_abs(j, 0)] == file[bina_abs_offset + original_abs(j, 0)]);
}

/// Bytes further on in the clean section stand further on in the file.
pub proof fn places_are_in_order(i: int, j: int, bina_abs_offset: int)
    requires
        0 <= i < j,
    ensures
        original_abs(i, bina_abs_offset) < original_abs(j, bina_abs_offset),
{
    if j >= FRAME_START_BINA_REL {
        let g = lemma_frame_of(j);
        lemma_framed(g, j);
        frames_follow_one_another(g);
        if i >= FRAME_START_BINA_REL {
            let f = lemma_frame_of(i);
            lemma_framed(f, i);
            if f < g {
                lemma_frame_order(f, g);
            } else if g < f {
                lemma_frame_order(g, f);
            }
        }
    }
}

/// From one byte of the clean section to the next the place rises by one, or by one and the
/// header of a frame.
pub proof fn places_rise_by_a_header_at_most(j: int, bina_abs_offset: int)
    requires
        0 <= j,
    ensures
        original_abs(j + 1, bina_abs_offset) <= original_abs(j, bina_abs_offset) + 1
            + FRAME_HEADER_SIZE,
{
    if j >= FRAME_START_BINA_REL {
        let f = lemma_frame_of(j);
        lemma_framed(f, j);
        frames_follow_one_another(f);
        lemma_frame_parts(f);
        if j + 1 < FRAME_START_BINA_REL + f * FRAME_PAYLOAD_SIZE + FRAME_PAYLOAD_SIZE {
            lemma_framed(f, j + 1);
        } else {
            lemma_framed(f + 1, j + 1);
        }
    } else if j + 1 == FRAME_START_BINA_REL {
        frames_follow_one_another(0);
        lemma_frame_parts(0);
        assert(0 * FRAME_PAYLOAD_SIZE == 0) by (nonlinear_arith);
        lemma_framed(0, j + 1);
    }
}

/// No byte of the clean section stands in the header of a frame.
pub proof fn places_are_outside_headers(j: int, bina_abs_offset: int, k: int)
    requires
        0 <= j,
        0 <= k,
    ensures
        !(bina_abs_offset + frame_position(k) <= original_abs(j, bina_abs_offset)
            < bina_abs_offset + frame_position(k) + FRAME_HEADER_SIZE),
{
    if j >= FRAME_START_BINA_REL {
        let f = lemma_frame_of(j);
        lemma_framed(f, j);
        if k < f {
            lemma_frame_order(k, f);
        } else if f < k {
            lemma_frame_order(f, k);
        }
    } else {
        frames_follow_one_another(k);
    }
}

/// A section without frames is clean as it is.
pub proof fn unframed_sections_are_clean(bina: Seq<u8>)
    requires
        frame_count(bina) == 0,
    ensures
        clean_section(bina) == bina,
{
    assert(0 * FRAME_HEADER_SIZE == 0 && 0 * FRAME_PAYLOAD_SIZE == 0) by (nonlinear_arith);
    assert(clean_section(bina) =~= bina);
}

proof fn lemma_raw_places_differ(bina: Seq<u8>, i: int, j: int)
    requires
        0 <= i < clean_section(bina).len(),
        0 <= j < mapped_len(bina),
        i != j,
    ensures
        raw_position(frame_count(bina), i) != original_abs(j, 0),
        0 <= raw_position(frame_count(bina), i) < bina.len(),
{
    let n = frame_count(bina) as int;
    lemma_mapped(bina, j);
    if i < mapped_len(bina) {
        lemma_mapped(bina, i);
        if i < j {
            places_are_in_order(i, j, 0);
        } else {
            places_are_in_order(j, i, 0);
        }
    } else {
        lemma_frame_parts(n);
        only_headers_are_stripped(bina);
        if j >= FRAME_START_BINA_REL {
            let f = lemma_frame_of(j);
            lemma_framed(f, j);
            if n < f {
                lemma_frame_order(n, f);
            }
            lemma_frame_order(f, n);
        }
    }
}

/// Writing a byte of the clean section at its place in the raw section changes that byte of the
/// clean section and no other, and leaves the frames as they are.
pub proof fn writes_land_in_the_clean_section(bina: Seq<u8>, j: int, byte: u8)
    requires
        0 <= j < mapped_len(bina),
    ensures
        clean_section(bina.update(original_abs(j, 0), byte)) == clean_section(bina).update(j, byte),
        frame_count(bina.update(original_abs(j, 0), byte)) == frame_count(bina),
        mapped_len(bina.update(original_abs(j, 0), byte)) == mapped_len(bina),
{
    let n = frame_count(bina);
    let place = original_abs(j, 0);
    let written = bina.update(place, byte);
    lemma_mapped(bina, j);
    only_headers_are_stripped(bina);
    lemma_frames_run(bina, 0);
    assert forall|k: int| 0 <= k <= n implies #[trigger] frame_present(written, k)
        == frame_present(bina, k) by {
        places_are_outside_headers(j, 0, k);
        frames_follow_one_another(k);
    }
    lemma_frame_count_is(written, n);
    assert forall|i: int| 0 <= i < clean_section(bina).len() implies #[trigger] clean_section(
        written,
    )[i] == clean_section(bina).update(j, byte)[i] by {
        if i != j {
            lemma_raw_places_differ(bina, i, j);
        }
    }
    assert(clean_section(written) =~= clean_section(bina).update(j, byte));
}

proof fn lemma_sizes(k: int)
    ensures
        k * FRAME_SIZE == 540 * k,
        k * FRAME_PAYLOAD_SIZE == 512 * k,
        k * FRAME_HEADER_SIZE == 28 * k,
{
    assert(k * FRAME_SIZE == 540 * k && k * FRAME_PAYLOAD_SIZE == 512 * k && k * FRAME_HEADER_SIZE
        == 28 * k) by (nonlinear_arith)
        requires
            FRAME_SIZE == 540,
            FRAME_PAYLOAD_SIZE == 512,
            FRAME_HEADER_SIZE == 28,
    ;
}

/// However many frames follow one another from place 0x00fa6e3c on, each of 28 bytes of header,
/// with 0 and 4 as third and fourth, and of 512 bytes of payload: the clean section is what stands
/// before them, their payloads, and what stands behind them, without a gap.
pub proof fn frames_are_taken_apart(raw: Seq<u8>, n: int)
    requires
        0 <= n,
        0x00fa6e3c + 540 * n <= raw.len(),
        forall|k: int|
            0 <= k < n ==> (#[trigger] raw[0x00fa6e3c + 540 * k + 2]) == 0 && raw[0x00fa6e3c + 540
                * k + 3] == 4,
        0x00fa6e3c + 540 * n + 540 > raw.len() || raw[0x00fa6e3c + 540 * n + 2] != 0
            || raw[0x00fa6e3c + 540 * n + 3] != 4,
    ensures
        frame_count(raw) == n,
        clean_section(raw).len() == raw.len() - 28 * n,
        forall|j: int| 0 <= j < 0x00fa6e3c ==> #[trigger] clean_section(raw)[j] == raw[j],
        forall|k: int, r: int|
            0 <= k < n && 0 <= r < 512 ==> #[trigger] clean_section(raw)[0x00fa6e3c + 512 * k + r]
                == raw[0x00fa6e3c + 540 * k + 28 + r],
        forall|t: int|
            0 <= t < raw.len() - 0x00fa6e3c - 540 * n ==> #[trigger] clean_section(
                raw,
            )[0x00fa6e3c + 512 * n + t] == raw[0x00fa6e3c + 540 * n + t],
{
    assert forall|k: int| 0 <= k < n implies frame_present(raw, k) by {
        assert(raw[0x00fa6e3c + 540 * k + 2] == 0);
        lemma_sizes(k);
    }
    lemma_sizes(n);
    lemma_frame_count_is(raw, n as nat);
    only_headers_are_stripped(raw);
    assert forall|k: int, r: int| 0 <= k < n && 0 <= r < 512 implies #[trigger] clean_section(
        raw,
    )[0x00fa6e3c + 512 * k + r] == raw[0x00fa6e3c + 540 * k + 28 + r] by {
        let j = 0x00fa6e3c + 512 * k + r;
        lemma_sizes(k);
        lemma_framed(k, j);
    }
}

/// The place of a byte counts the headers of the frames before it and of its own.
pub proof fn places_count_headers(j: int, k: int, r: int, bina_abs_offset: int)
    requires
        0 <= k,
        0 <= r < 512,
    ensures
        j < 0x00fa6e3c ==> original_abs(j, bina_abs_offset) == bina_abs_offset + j,
        original_abs(0x00fa6e3c + 512 * k + r, bina_abs_offset) == bina_abs_offset + 0x00fa6e3c
            + 540 * k + 28 + r,
{
    lemma_sizes(k);
    lemma_framed(k, 0x00fa6e3c + 512 * k + r);
}

} // verus!
