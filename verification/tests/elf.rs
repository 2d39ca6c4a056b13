use rust_os::elf::{parse, ElfError, HEADER_BUFFER, MAX_SEGMENTS};

const EHDR_SIZE: usize = 64;
const PHDR_SIZE: usize = 56;
const PT_LOAD: u32 = 1;
const PF_X: u32 = 1;
const PF_W: u32 = 2;

/// A hand-built 64-byte ELF header plus one PT_LOAD program header.
fn synthetic_elf() -> [u8; HEADER_BUFFER] {
    let mut buf = [0u8; HEADER_BUFFER];
    buf[0..4].copy_from_slice(&[0x7F, b'E', b'L', b'F']);
    buf[4] = 2;
    buf[5] = 1;
    buf[6] = 1;
    buf[16..18].copy_from_slice(&2u16.to_le_bytes());
    buf[18..20].copy_from_slice(&0x3Eu16.to_le_bytes());
    buf[24..32].copy_from_slice(&0x2000_0000_1000u64.to_le_bytes()); // e_entry
    buf[32..40].copy_from_slice(&(EHDR_SIZE as u64).to_le_bytes()); // e_phoff
    buf[54..56].copy_from_slice(&(PHDR_SIZE as u16).to_le_bytes());
    buf[56..58].copy_from_slice(&1u16.to_le_bytes()); // e_phnum

    let ph = EHDR_SIZE;
    buf[ph..ph + 4].copy_from_slice(&PT_LOAD.to_le_bytes());
    buf[ph + 4..ph + 8].copy_from_slice(&(PF_X | 4).to_le_bytes());
    buf[ph + 8..ph + 16].copy_from_slice(&0x1000u64.to_le_bytes()); // p_offset
    buf[ph + 16..ph + 24].copy_from_slice(&0x2000_0000_1000u64.to_le_bytes()); // p_vaddr
    buf[ph + 32..ph + 40].copy_from_slice(&0x40u64.to_le_bytes()); // p_filesz
    buf[ph + 40..ph + 48].copy_from_slice(&0x100u64.to_le_bytes()); // p_memsz
    buf
}

#[test]
fn parses_a_well_formed_header() {
    let image = parse(&synthetic_elf()).expect("valid ELF should parse");
    assert_eq!(image.entry, 0x2000_0000_1000);
    assert_eq!(image.segment_count(), 1);
    let segment = image.segments()[0];
    assert_eq!(segment.vaddr, 0x2000_0000_1000);
    assert_eq!(segment.file_size, 0x40);
    assert_eq!(segment.mem_size, 0x100); // the excess is .bss
    assert_eq!(segment.mem_end(), 0x2000_0000_1100);
    assert!(segment.executable);
    assert!(!segment.writable);
}

#[test]
fn rejects_non_elf_input() {
    let mut buf = synthetic_elf();
    buf[1] = b'X';
    assert_eq!(parse(&buf), Err(ElfError::NotAnElf));
    assert_eq!(parse(b"short"), Err(ElfError::Truncated));
}

#[test]
fn rejects_wrong_class_and_machine() {
    let mut buf = synthetic_elf();
    buf[4] = 1; // ELFCLASS32
    assert_eq!(parse(&buf), Err(ElfError::UnsupportedFormat));

    let mut buf = synthetic_elf();
    buf[18..20].copy_from_slice(&0x28u16.to_le_bytes()); // EM_ARM
    assert_eq!(parse(&buf), Err(ElfError::UnsupportedType));
}

#[test]
fn rejects_program_headers_outside_the_buffer() {
    let mut buf = synthetic_elf();
    buf[32..40].copy_from_slice(&(HEADER_BUFFER as u64).to_le_bytes());
    assert_eq!(parse(&buf), Err(ElfError::BadProgramHeaders));
}

#[test]
fn rejects_a_segment_smaller_in_memory_than_on_disk() {
    let mut buf = synthetic_elf();
    let ph = EHDR_SIZE;
    buf[ph + 40..ph + 48].copy_from_slice(&0x10u64.to_le_bytes()); // memsz < filesz
    assert_eq!(parse(&buf), Err(ElfError::BadSegment));
}

#[test]
fn rejects_ranges_that_overflow() {
    let mut buf = synthetic_elf();
    let ph = EHDR_SIZE;
    buf[ph + 16..ph + 24].copy_from_slice(&(u64::MAX - 0x80).to_le_bytes());
    assert_eq!(parse(&buf), Err(ElfError::BadSegment));

    let mut buf = synthetic_elf();
    buf[ph + 8..ph + 16].copy_from_slice(&(u64::MAX - 0x10).to_le_bytes());
    assert_eq!(parse(&buf), Err(ElfError::BadSegment));
}

#[test]
fn collects_only_loadable_segments_in_order() {
    let mut buf = synthetic_elf();
    buf[56..58].copy_from_slice(&4u16.to_le_bytes());
    let first: Vec<u8> = buf[EHDR_SIZE..EHDR_SIZE + PHDR_SIZE].to_vec();
    for i in 1..4 {
        let at = EHDR_SIZE + i * PHDR_SIZE;
        buf[at..at + PHDR_SIZE].copy_from_slice(&first);
    }
    // A note, an empty segment, and a writable one.
    let note = EHDR_SIZE + PHDR_SIZE;
    buf[note..note + 4].copy_from_slice(&4u32.to_le_bytes());
    let empty = EHDR_SIZE + 2 * PHDR_SIZE;
    buf[empty + 32..empty + 40].copy_from_slice(&0u64.to_le_bytes());
    buf[empty + 40..empty + 48].copy_from_slice(&0u64.to_le_bytes());
    let data = EHDR_SIZE + 3 * PHDR_SIZE;
    buf[data + 4..data + 8].copy_from_slice(&(PF_W | 4).to_le_bytes());
    buf[data + 16..data + 24].copy_from_slice(&0x2000_0000_3000u64.to_le_bytes());

    let image = parse(&buf).expect("valid ELF should parse");
    assert_eq!(image.segment_count(), 2);
    assert!(image.segments()[0].executable && !image.segments()[0].writable);
    assert!(!image.segments()[1].executable && image.segments()[1].writable);
    assert_eq!(image.segments()[1].vaddr, 0x2000_0000_3000);
}

#[test]
fn rejects_too_many_segments_and_none() {
    let mut buf = synthetic_elf();
    let first: Vec<u8> = buf[EHDR_SIZE..EHDR_SIZE + PHDR_SIZE].to_vec();
    let count = MAX_SEGMENTS + 1;
    buf[56..58].copy_from_slice(&(count as u16).to_le_bytes());
    for i in 1..count {
        let at = EHDR_SIZE + i * PHDR_SIZE;
        buf[at..at + PHDR_SIZE].copy_from_slice(&first);
    }
    assert_eq!(parse(&buf), Err(ElfError::TooManySegments));
    buf[56..58].copy_from_slice(&(MAX_SEGMENTS as u16).to_le_bytes());
    assert_eq!(parse(&buf).expect("eight segments fit").segment_count(), MAX_SEGMENTS);

    let mut buf = synthetic_elf();
    buf[EHDR_SIZE..EHDR_SIZE + 4].copy_from_slice(&4u32.to_le_bytes());
    assert_eq!(parse(&buf), Err(ElfError::BadProgramHeaders));
}

#[test]
fn bytes_behind_the_headers_do_not_matter() {
    let mut buf = synthetic_elf();
    let plain = parse(&buf);
    for byte in buf[EHDR_SIZE + PHDR_SIZE..].iter_mut() {
        *byte = 0xA5;
    }
    assert_eq!(parse(&buf), plain);
}
