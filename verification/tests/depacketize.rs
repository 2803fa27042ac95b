use mg30_extract::depacketize::{
    clean_bina_rel_to_original_abs, depacketize_bina, place_is_countable, FRAME_HEADER_SIZE,
    FRAME_PAYLOAD_SIZE, FRAME_SIZE, FRAME_START_BINA_REL,
};

/// A section with the given number of frames and a tail, and the clean section it stands for.
fn section(frames: usize, tail: &[u8]) -> (Vec<u8>, Vec<u8>) {
    let mut raw = Vec::new();
    let mut clean = Vec::new();
    for i in 0..FRAME_START_BINA_REL {
        raw.push((i % 251) as u8);
    }
    clean.extend_from_slice(&raw);
    for f in 0..frames {
        let mut header = [0xeeu8; FRAME_HEADER_SIZE];
        header[2] = 0x00;
        header[3] = 0x04;
        raw.extend_from_slice(&header);
        for i in 0..FRAME_PAYLOAD_SIZE {
            let byte = ((i * 7 + f * 13) % 241) as u8;
            raw.push(byte);
            clean.push(byte);
        }
    }
    raw.extend_from_slice(tail);
    clean.extend_from_slice(tail);
    (raw, clean)
}

#[test]
fn frame_sizes_add_up() {
    assert_eq!(FRAME_SIZE, 540);
    assert_eq!(FRAME_START_BINA_REL, 0x00fa6e3c);
}

#[test]
fn short_sections_are_clean() {
    assert_eq!(depacketize_bina(&[]), Vec::<u8>::new());
    assert_eq!(depacketize_bina(&[1, 2, 3]), vec![1, 2, 3]);
    let (raw, clean) = section(0, &[]);
    assert_eq!(raw.len(), FRAME_START_BINA_REL);
    assert!(depacketize_bina(&raw) == clean);
}

#[test]
fn frame_headers_are_stripped() {
    for frames in [1, 3] {
        let (raw, clean) = section(frames, &[9, 8, 7, 6, 5]);
        let r = depacketize_bina(&raw);
        assert_eq!(r.len(), raw.len() - frames * FRAME_HEADER_SIZE);
        assert!(r == clean);
    }
}

#[test]
fn frames_end_at_the_first_other_header() {
    let (mut raw, _) = section(3, &[]);
    raw[FRAME_START_BINA_REL + FRAME_SIZE + 3] = 0x05;
    let r = depacketize_bina(&raw);
    assert_eq!(r.len(), raw.len() - FRAME_HEADER_SIZE);
    assert!(r[FRAME_START_BINA_REL + FRAME_PAYLOAD_SIZE..] == raw[FRAME_START_BINA_REL + FRAME_SIZE..]);
}

#[test]
fn incomplete_frames_are_no_frames() {
    let (mut raw, _) = section(1, &[]);
    raw.pop();
    assert!(depacketize_bina(&raw) == raw);
}

#[test]
fn places_count_the_headers() {
    assert_eq!(clean_bina_rel_to_original_abs(0, 0), 0);
    assert_eq!(clean_bina_rel_to_original_abs(5, 100), 105);
    assert_eq!(
        clean_bina_rel_to_original_abs(FRAME_START_BINA_REL - 1, 7),
        FRAME_START_BINA_REL + 6
    );
    assert_eq!(clean_bina_rel_to_original_abs(FRAME_START_BINA_REL, 0), FRAME_START_BINA_REL + 28);
    assert_eq!(
        clean_bina_rel_to_original_abs(FRAME_START_BINA_REL + 511, 0),
        FRAME_START_BINA_REL + 539
    );
    assert_eq!(
        clean_bina_rel_to_original_abs(FRAME_START_BINA_REL + 512, 0),
        FRAME_START_BINA_REL + 568
    );
    assert_eq!(clean_bina_rel_to_original_abs(0x0141f4a0, 0x1000), 0x0145ee10);
}

#[test]
fn clean_bytes_stand_at_their_places() {
    let (raw, clean) = section(2, &[]);
    for j in (0..clean.len()).step_by(97).chain(FRAME_START_BINA_REL..clean.len()) {
        assert_eq!(raw[clean_bina_rel_to_original_abs(j, 0)], clean[j]);
    }
}

#[test]
fn bytes_behind_the_last_frame_have_other_places() {
    let (raw, clean) = section(1, &[0x55; 64]);
    let j = FRAME_START_BINA_REL + FRAME_PAYLOAD_SIZE;
    assert_eq!(clean[j], raw[FRAME_START_BINA_REL + FRAME_SIZE]);
    assert_eq!(
        clean_bina_rel_to_original_abs(j, 0),
        FRAME_START_BINA_REL + FRAME_SIZE + FRAME_HEADER_SIZE
    );
}

#[test]
fn a_written_byte_shows_in_the_clean_section() {
    let (mut raw, mut clean) = section(2, &[1, 2, 3]);
    for j in [0, FRAME_START_BINA_REL, FRAME_START_BINA_REL + 600] {
        raw[clean_bina_rel_to_original_abs(j, 0)] ^= 0xff;
        clean[j] ^= 0xff;
    }
    assert!(depacketize_bina(&raw) == clean);
}

#[test]
fn places_can_be_too_large_to_count() {
    assert!(place_is_countable(FRAME_START_BINA_REL, 0));
    assert!(place_is_countable(5, usize::MAX - 5));
    assert!(!place_is_countable(6, usize::MAX - 5));
    assert!(!place_is_countable(usize::MAX, 0));
}
