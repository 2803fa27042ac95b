//! A firmware file with its BINA section at hand.

use vstd::prelude::*;

use crate::container::{
    first_tagged, header_reads, header_refused, header_valid, parse_nux_dfu, section_bytes,
    section_refused, sections_lie_inside, sections_read, Firmware, SectionEntry,
};
use crate::depacketize::{clean_section, depacketize_bina};
use crate::error::Error;

verus! {

/// A firmware file, parsed, with its BINA section.
#[derive(Debug)]
pub struct LoadedBina {
    pub fw: Firmware,
    pub data: Vec<u8>,
    pub clean_bina: Vec<u8>,
    pub bina_abs_offset: usize,
}

/// `fw` is what `data` parses to.
pub open spec fn firmware_reads(data: Seq<u8>, fw: Firmware) -> bool {
    &&& header_valid(data)
    &&& header_reads(data, fw.header)
    &&& sections_read(data, fw.sections@)
}

/// `e` is what `data` is refused with when it does not parse.
pub open spec fn firmware_refused(data: Seq<u8>, e: Error) -> bool {
    header_refused(data, e) || (header_valid(data) && exists|k: int| #[trigger]
        section_refused(data, k, e))
}

/// The bytes of a section, stripped of the frame wrapper if `depacketize` is set.
pub open spec fn contents(data: Seq<u8>, section: SectionEntry, depacketize: bool) -> Seq<u8> {
    let bytes = data.subrange(section.offset as int, section.offset + section.size);
    if depacketize {
        clean_section(bytes)
    } else {
        bytes
    }
}

/// `loaded` holds `data`, what it parses to, and its first section of the name BINA, stripped
/// of the frame wrapper if `depacketize` is set.
pub open spec fn loads(data: Seq<u8>, depacketize: bool, loaded: LoadedBina) -> bool {
    &&& loaded.data@ == data
    &&& firmware_reads(data, loaded.fw)
    &&& exists|i: int|
        {
            &&& #[trigger] first_tagged(loaded.fw.sections@, "BINA"@, i)
            &&& loaded.bina_abs_offset == loaded.fw.sections@[i].offset
            &&& loaded.clean_bina@ == contents(data, loaded.fw.sections@[i], depacketize)
        }
}

/// Parses a firmware file and takes out its BINA section.
pub fn load_bina(data: Vec<u8>, depacketize: bool) -> (r: Result<LoadedBina, Error>)
    ensures
        match r {
            Ok(loaded) => loads(data@, depacketize, loaded),
            Err(Error::BinaNotFound) => exists|fw: Firmware| #[trigger]
                firmware_reads(data@, fw) && forall|i: int|
                    0 <= i < fw.sections@.len() ==> (#[trigger] fw.sections@[i]).tag@ != "BINA"@,
            Err(e) => firmware_refused(data@, e),
        },
{
    let fw = match parse_nux_dfu(data.as_slice()) {
        Ok(fw) => fw,
        Err(e) => return Err(e),
    };
    assert(firmware_reads(data@, fw));
    let bina = match fw.section("BINA") {
        Some(bina) => bina,
        None => return Err(Error::BinaNotFound),
    };
    let ghost place = choose|i: int|
        first_tagged(fw.sections@, "BINA"@, i) && *bina == #[trigger] fw.sections@[i];
    let bina_abs_offset = bina.offset;
    proof {
        sections_lie_inside(data@, fw.sections@);
    }
    let bina_bytes = section_bytes(data.as_slice(), bina);
    let clean_bina = if depacketize {
        depacketize_bina(bina_bytes)
    } else {
        vstd::slice::slice_to_vec(bina_bytes)
    };
    assert(first_tagged(fw.sections@, "BINA"@, place));
    let ghost bytes = data@;
    assert(clean_bina@ == contents(bytes, fw.sections@[place], depacketize));
    let loaded = LoadedBina { fw, data, clean_bina, bina_abs_offset };
    assert(loaded.bina_abs_offset == loaded.fw.sections@[place].offset);
    assert(loads(bytes, depacketize, loaded));
    Ok(loaded)
}

/// The contents of a section are its bytes, all of them, and without the frame wrapper the clean
/// section of these, whatever its size.
pub proof fn contents_are_the_sections_bytes(data: Seq<u8>, section: SectionEntry, i: int)
    requires
        section.offset + section.size <= data.len(),
        0 <= i < section.size,
    ensures
        contents(data, section, false).len() == section.size,
        contents(data, section, false)[i] == data[section.offset + i],
        contents(data, section, true) == clean_section(contents(data, section, false)),
{
}

} // verus!
