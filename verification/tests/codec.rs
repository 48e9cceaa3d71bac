use zehn::error::ElfError;
use zehn::object::{Class, Endianness, Header, Ident};
use zehn::section::{Section, SectionHeader};
use zehn::segment::{ProgramHeader, Segment};
use zehn::stream::{Cursor, Reader};
use zehn::symbol::Symbol;
use zehn::util::{align_to, checked_align_to, ReadExt, SeekExt, WriteExt};

fn combos() -> Vec<(Class, Endianness)> {
    vec![
        (Class::Bits32, Endianness::Little),
        (Class::Bits32, Endianness::Big),
        (Class::Bits64, Endianness::Little),
        (Class::Bits64, Endianness::Big),
    ]
}

fn sample_header(class: Class, data: Endianness) -> Header {
    Header {
        e_ident: Ident {
            ei_magic: [0x7F, 0x45, 0x4C, 0x46],
            ei_class: class,
            ei_data: data,
            ei_version: 1,
            ei_osabi: 3,
            ei_abiversion: 9,
            ei_pad: [1, 2, 3, 4, 5, 6, 7],
        },
        e_type: 0x0102,
        e_machine: 0x003E,
        e_version: 0x0A0B0C0D,
        e_entry: 0x11223344,
        e_phoff: 0x40,
        e_shoff: 0x55667788,
        e_flags: 0xDEADBEEF,
        e_ehsize: 0x40,
        e_phentsize: 0x38,
        e_phnum: 13,
        e_shentsize: 0x40,
        e_shnum: 38,
        e_shstrndx: 37,
    }
}

#[test]
fn align_to_keeps_multiples_and_zero_alignment() {
    assert_eq!(align_to(&0, &16), 0);
    assert_eq!(align_to(&32, &16), 32);
    assert_eq!(align_to(&33, &0), 33);
    assert_eq!(align_to(&33, &1), 33);
}

#[test]
fn align_to_rounds_up_to_next_multiple() {
    assert_eq!(align_to(&1, &16), 16);
    assert_eq!(align_to(&17, &16), 32);
    assert_eq!(align_to(&792, &16), 800);
    assert_eq!(align_to(&10, &3), 12);
}

#[test]
fn checked_align_to_reports_overflow() {
    assert_eq!(checked_align_to(17, 16), Some(32));
    assert_eq!(checked_align_to(u64::MAX, 0), Some(u64::MAX));
    assert_eq!(checked_align_to(u64::MAX, 16), None);
    assert_eq!(checked_align_to(u64::MAX - 15, 16), Some(u64::MAX - 15));
}

#[test]
fn integers_are_written_in_both_byte_orders() {
    let mut out: Vec<u8> = Vec::new();
    assert_eq!(out.write_u8(0xAB), Ok(1));
    assert_eq!(out.write_u16(&Endianness::Little, 0x1234), Ok(2));
    assert_eq!(out.write_u16(&Endianness::Big, 0x1234), Ok(2));
    assert_eq!(out.write_u32(&Endianness::Little, 0x01020304), Ok(4));
    assert_eq!(out.write_u32(&Endianness::Big, 0x01020304), Ok(4));
    assert_eq!(out.write_u64(&Endianness::Little, 0x0102030405060708), Ok(8));
    assert_eq!(out.write_u64(&Endianness::Big, 0x0102030405060708), Ok(8));
    assert_eq!(
        out,
        vec![
            0xAB, 0x34, 0x12, 0x12, 0x34, 4, 3, 2, 1, 1, 2, 3, 4, 8, 7, 6, 5, 4, 3, 2, 1, 1, 2,
            3, 4, 5, 6, 7, 8
        ]
    );
}

#[test]
fn integers_are_read_in_both_byte_orders() {
    let data: Vec<u8> = vec![
        0xAB, 0x34, 0x12, 0x12, 0x34, 4, 3, 2, 1, 1, 2, 3, 4, 8, 7, 6, 5, 4, 3, 2, 1, 1, 2, 3, 4,
        5, 6, 7, 8,
    ];
    let mut r = Reader::new(&data);
    assert_eq!(r.read_u8(), Ok(0xAB));
    assert_eq!(r.read_u16(&Endianness::Little), Ok(0x1234));
    assert_eq!(r.read_u16(&Endianness::Big), Ok(0x1234));
    assert_eq!(r.read_u32(&Endianness::Little), Ok(0x01020304));
    assert_eq!(r.read_u32(&Endianness::Big), Ok(0x01020304));
    assert_eq!(r.read_u64(&Endianness::Little), Ok(0x0102030405060708));
    assert_eq!(r.read_u64(&Endianness::Big), Ok(0x0102030405060708));
    assert_eq!(r.stream_position(), 29);
    assert_eq!(r.read_u8(), Err(ElfError::TruncatedInput));
}

#[test]
fn short_reads_fail_and_leave_the_cursor() {
    let data: Vec<u8> = vec![1, 2, 3];
    let mut r = Reader::new(&data);
    assert_eq!(r.read_u32(&Endianness::Little), Err(ElfError::TruncatedInput));
    assert_eq!(r.stream_position(), 0);
    assert_eq!(r.read_bytes::<3>(), Ok([1, 2, 3]));
    assert_eq!(r.read_exact(1), Err(ElfError::TruncatedInput));
    assert_eq!(r.read_exact(0), Ok(vec![]));
    r.seek(100);
    assert_eq!(r.read_u8(), Err(ElfError::TruncatedInput));
    assert_eq!(r.read_exact(0), Err(ElfError::TruncatedInput));
    assert_eq!(r.stream_position(), 100);
}

#[test]
fn cstr_is_read_up_to_the_zero_byte() {
    let data: Vec<u8> = vec![b'a', b'b', 0, b'c', 0];
    let mut r = Reader::new(&data);
    assert_eq!(r.read_cstr(), Ok("ab".to_string()));
    assert_eq!(r.stream_position(), 3);
    assert_eq!(r.read_cstr(), Ok("c".to_string()));
    assert_eq!(r.read_cstr(), Err(ElfError::TruncatedInput));
}

#[test]
fn cstr_decodes_utf8() {
    let data: Vec<u8> = vec![0xC3, 0xA9, 0xE2, 0x82, 0xAC, 0];
    let mut r = Reader::new(&data);
    assert_eq!(r.read_cstr(), Ok("\u{e9}\u{20ac}".to_string()));
}

#[test]
fn cstr_with_invalid_utf8_is_a_decode_error() {
    let data: Vec<u8> = vec![0xFF, 0xFE, 0, b'x', 0];
    let mut r = Reader::new(&data);
    assert_eq!(r.read_cstr(), Err(ElfError::DecodeError));
    assert_eq!(r.stream_position(), 3);
    assert_eq!(r.read_cstr(), Ok("x".to_string()));
}

#[test]
fn cstr_without_terminator_is_truncated() {
    let data: Vec<u8> = vec![b'a', b'b'];
    let mut r = Reader::new(&data);
    assert_eq!(r.read_cstr(), Err(ElfError::TruncatedInput));
}

#[test]
fn cstr_is_written_with_its_terminator() {
    let mut out: Vec<u8> = Vec::new();
    assert_eq!(out.write_cstr(".text"), Ok(6));
    assert_eq!(out.write_cstr(""), Ok(1));
    assert_eq!(out, vec![b'.', b't', b'e', b'x', b't', 0, 0]);
}

#[test]
fn cursor_overwrites_pads_and_grows() {
    let mut c = Cursor::new(vec![1, 2, 3, 4]);
    c.seek(2);
    assert_eq!(c.write_all(&[9, 9, 9]), Ok(3));
    assert_eq!(c.stream_position(), 5);
    c.seek(7);
    assert_eq!(c.write_u8(5), Ok(1));
    assert_eq!(c.into_inner(), vec![1, 2, 9, 9, 9, 0, 0, 5]);
}

#[test]
fn cursor_align_moves_to_next_multiple() {
    let mut c = Cursor::new(Vec::new());
    c.seek(5);
    assert_eq!(c.align(4), Ok(()));
    assert_eq!(c.stream_position(), 8);
    assert_eq!(c.align(0), Ok(()));
    assert_eq!(c.stream_position(), 8);
    c.seek(u64::MAX);
    assert_eq!(c.align(16), Err(ElfError::OffsetOverflow));
    assert_eq!(c.stream_position(), u64::MAX);
}

#[test]
fn default_header_takes_64_bytes() {
    let header = Header::default();
    let mut buffer: Vec<u8> = Vec::new();
    assert_eq!(header.write(&mut buffer), Ok(0x40));
    assert_eq!(buffer.len(), 0x40);
    assert_eq!(buffer[4], 2);
    assert_eq!(buffer[5], 1);
}

#[test]
fn header_layout_64_little() {
    let h = sample_header(Class::Bits64, Endianness::Little);
    let raw = h.to_bytes();
    assert_eq!(raw.len(), 64);
    assert_eq!(&raw[0..4], &[0x7F, 0x45, 0x4C, 0x46]);
    assert_eq!(&raw[4..9], &[2, 1, 1, 3, 9]);
    assert_eq!(&raw[9..16], &[1, 2, 3, 4, 5, 6, 7]);
    assert_eq!(&raw[16..18], &[0x02, 0x01]);
    assert_eq!(&raw[24..32], &[0x44, 0x33, 0x22, 0x11, 0, 0, 0, 0]);
    assert_eq!(&raw[48..52], &[0xEF, 0xBE, 0xAD, 0xDE]);
    assert_eq!(&raw[62..64], &[37, 0]);
}

#[test]
fn header_layout_32_big() {
    let h = sample_header(Class::Bits32, Endianness::Big);
    let raw = h.to_bytes();
    assert_eq!(raw.len(), 52);
    assert_eq!(&raw[4..6], &[1, 2]);
    assert_eq!(&raw[16..18], &[0x01, 0x02]);
    assert_eq!(&raw[24..28], &[0x11, 0x22, 0x33, 0x44]);
    assert_eq!(&raw[28..32], &[0, 0, 0, 0x40]);
    assert_eq!(&raw[36..40], &[0xDE, 0xAD, 0xBE, 0xEF]);
    assert_eq!(&raw[50..52], &[0, 37]);
}

#[test]
fn header_round_trips_in_all_combinations() {
    for (class, data) in combos() {
        let h = sample_header(class, data);
        let mut c = Cursor::new(Vec::new());
        let n = h.write(&mut c).unwrap();
        let image = c.into_inner();
        assert_eq!(image.len(), n);
        let mut r = Reader::new(&image);
        assert_eq!(Header::read(&mut r), Ok(h));
        assert_eq!(r.stream_position(), n as u64);
    }
}

#[test]
fn header_narrows_wide_fields_in_the_32_bit_class() {
    let mut h = sample_header(Class::Bits32, Endianness::Little);
    h.e_entry = 0x1_0000_0005;
    let raw = h.to_bytes();
    let mut r = Reader::new(&raw);
    let back = Header::read(&mut r).unwrap();
    assert_eq!(back.e_entry, 5);
}

#[test]
fn header_with_wrong_magic_is_rejected() {
    let mut raw = sample_header(Class::Bits64, Endianness::Little).to_bytes();
    raw[1] = 0x46;
    let mut r = Reader::new(&raw);
    assert_eq!(Header::read(&mut r), Err(ElfError::InvalidMagic));
    let zeros = Header::default().to_bytes();
    let mut r = Reader::new(&zeros);
    assert_eq!(Header::read(&mut r), Err(ElfError::InvalidMagic));
}

#[test]
fn header_with_unknown_class_is_rejected() {
    let mut raw = sample_header(Class::Bits64, Endianness::Little).to_bytes();
    raw[4] = 3;
    let mut r = Reader::new(&raw);
    assert_eq!(Header::read(&mut r), Err(ElfError::UnsupportedClass));
    raw[4] = 0;
    let mut r = Reader::new(&raw);
    assert_eq!(Header::read(&mut r), Err(ElfError::UnsupportedClass));
}

#[test]
fn header_with_unknown_byte_order_is_rejected() {
    let mut raw = sample_header(Class::Bits64, Endianness::Little).to_bytes();
    raw[5] = 0;
    let mut r = Reader::new(&raw);
    assert_eq!(Header::read(&mut r), Err(ElfError::UnsupportedEndianness));
}

#[test]
fn header_that_ends_early_is_truncated() {
    let raw = sample_header(Class::Bits64, Endianness::Little).to_bytes();
    for cut in [0usize, 3, 4, 5, 15, 16, 63] {
        let mut r = Reader::new(&raw[..cut]);
        assert_eq!(Header::read(&mut r), Err(ElfError::TruncatedInput));
    }
    let short = vec![0x7Fu8, 0x45, 0x4C, 0x46, 9];
    let mut r = Reader::new(&short);
    assert_eq!(Header::read(&mut r), Err(ElfError::UnsupportedClass));
}

#[test]
fn program_header_layouts_differ_between_classes() {
    let ph = ProgramHeader {
        p_type: 1,
        p_flags: 5,
        p_offset: 0x1000,
        p_vaddr: 0x2000,
        p_paddr: 0x3000,
        p_filesz: 0x40,
        p_memsz: 0x50,
        p_align: 0x10,
    };
    let wide = ph.to_bytes(&Class::Bits64, &Endianness::Little);
    assert_eq!(wide.len(), 56);
    assert_eq!(&wide[0..4], &[1, 0, 0, 0]);
    assert_eq!(&wide[4..8], &[5, 0, 0, 0]);
    assert_eq!(&wide[8..16], &[0, 0x10, 0, 0, 0, 0, 0, 0]);
    assert_eq!(&wide[48..56], &[0x10, 0, 0, 0, 0, 0, 0, 0]);
    let narrow = ph.to_bytes(&Class::Bits32, &Endianness::Little);
    assert_eq!(narrow.len(), 32);
    assert_eq!(&narrow[0..4], &[1, 0, 0, 0]);
    assert_eq!(&narrow[4..8], &[0, 0x10, 0, 0]);
    assert_eq!(&narrow[20..24], &[0x50, 0, 0, 0]);
    assert_eq!(&narrow[24..28], &[5, 0, 0, 0]);
    assert_eq!(&narrow[28..32], &[0x10, 0, 0, 0]);
}

#[test]
fn program_header_round_trips_in_all_combinations() {
    let ph = ProgramHeader {
        p_type: 0x6474E551,
        p_flags: 6,
        p_offset: 0x11223344,
        p_vaddr: 0x55667788,
        p_paddr: 0x99AABBCC,
        p_filesz: 0xDDEEFF00,
        p_memsz: 0x01020304,
        p_align: 0x1000,
    };
    for (class, data) in combos() {
        let mut out: Vec<u8> = Vec::new();
        let n = ph.write(&class, &data, &mut out).unwrap();
        assert_eq!(n, if class == Class::Bits32 { 32 } else { 56 });
        let mut r = Reader::new(&out);
        assert_eq!(ProgramHeader::read(&class, &data, &mut r), Ok(ph));
        assert_eq!(
            ProgramHeader::read(&class, &data, &mut r),
            Err(ElfError::TruncatedInput)
        );
    }
}

#[test]
fn section_header_round_trips_in_all_combinations() {
    let sh = SectionHeader {
        sh_name: 0x1B,
        sh_type: 3,
        sh_flags: 0x42,
        sh_addr: 0x400000,
        sh_offset: 0x2000,
        sh_size: 0x123,
        sh_link: 7,
        sh_info: 8,
        sh_addralign: 16,
        sh_entsize: 24,
    };
    for (class, data) in combos() {
        let mut out: Vec<u8> = Vec::new();
        let n = sh.write(&class, &data, &mut out).unwrap();
        assert_eq!(n, if class == Class::Bits32 { 40 } else { 64 });
        assert_eq!(out.len(), n);
        let mut r = Reader::new(&out);
        assert_eq!(SectionHeader::read(&class, &data, &mut r), Ok(sh));
    }
}

#[test]
fn section_header_layout_64_big() {
    let sh = SectionHeader {
        sh_name: 1,
        sh_type: 2,
        sh_flags: 3,
        sh_addr: 4,
        sh_offset: 5,
        sh_size: 6,
        sh_link: 7,
        sh_info: 8,
        sh_addralign: 9,
        sh_entsize: 10,
    };
    let raw = sh.to_bytes(&Class::Bits64, &Endianness::Big);
    assert_eq!(&raw[0..8], &[0, 0, 0, 1, 0, 0, 0, 2]);
    assert_eq!(&raw[8..16], &[0, 0, 0, 0, 0, 0, 0, 3]);
    assert_eq!(&raw[40..48], &[0, 0, 0, 7, 0, 0, 0, 8]);
    assert_eq!(&raw[56..64], &[0, 0, 0, 0, 0, 0, 0, 10]);
}

#[test]
fn symbol_round_trips_in_all_combinations() {
    let sym = Symbol {
        sym_name: 0x21,
        sym_info: 0x12,
        sym_other: 3,
        sym_shndx: 0xFFF1,
        sym_value: 0x401000,
        sym_size: 0x80,
    };
    for (class, data) in combos() {
        let mut out: Vec<u8> = Vec::new();
        let n = sym.write(&class, &data, &mut out).unwrap();
        assert_eq!(n, if class == Class::Bits32 { 16 } else { 24 });
        let mut r = Reader::new(&out);
        assert_eq!(Symbol::read(&class, &data, &mut r), Ok(sym));
    }
}

#[test]
fn symbol_layouts_differ_between_classes() {
    let sym = Symbol {
        sym_name: 1,
        sym_info: 2,
        sym_other: 3,
        sym_shndx: 4,
        sym_value: 5,
        sym_size: 6,
    };
    let wide = sym.to_bytes(&Class::Bits64, &Endianness::Little);
    assert_eq!(
        wide,
        vec![1, 0, 0, 0, 2, 3, 4, 0, 5, 0, 0, 0, 0, 0, 0, 0, 6, 0, 0, 0, 0, 0, 0, 0]
    );
    let narrow = sym.to_bytes(&Class::Bits32, &Endianness::Little);
    assert_eq!(narrow, vec![1, 0, 0, 0, 5, 0, 0, 0, 6, 0, 0, 0, 2, 3, 4, 0]);
}

#[test]
fn records_write_into_a_cursor_at_its_position() {
    let sym = Symbol {
        sym_name: 1,
        sym_info: 2,
        sym_other: 3,
        sym_shndx: 4,
        sym_value: 5,
        sym_size: 6,
    };
    let mut c = Cursor::new(vec![0xEE; 4]);
    c.seek(2);
    assert_eq!(sym.write(&Class::Bits32, &Endianness::Big, &mut c), Ok(16));
    let image = c.into_inner();
    assert_eq!(image.len(), 18);
    assert_eq!(&image[0..6], &[0xEE, 0xEE, 0, 0, 0, 1]);
}

#[test]
fn new_section_and_segment_hold_their_headers() {
    let sh = SectionHeader {
        sh_name: 0,
        sh_type: 1,
        sh_flags: 0,
        sh_addr: 0,
        sh_offset: 0,
        sh_size: 0,
        sh_link: 0,
        sh_info: 0,
        sh_addralign: 4,
        sh_entsize: 0,
    };
    let s = Section::new(sh);
    assert_eq!(s.header, sh);
    assert!(s.body.is_empty());
    let ph = ProgramHeader {
        p_type: 1,
        p_flags: 0,
        p_offset: 0,
        p_vaddr: 0,
        p_paddr: 0,
        p_filesz: 0,
        p_memsz: 0,
        p_align: 0,
    };
    assert_eq!(Segment::new(ph).header, ph);
}
