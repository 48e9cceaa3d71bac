use zehn::error::ElfError;
use zehn::object::Object;
use zehn::stream::Reader;
use zehn::util::SeekExt;

fn put16(out: &mut Vec<u8>, x: u16) {
    out.extend_from_slice(&x.to_le_bytes());
}

fn put32(out: &mut Vec<u8>, x: u32) {
    out.extend_from_slice(&x.to_le_bytes());
}

fn put64(out: &mut Vec<u8>, x: u64) {
    out.extend_from_slice(&x.to_le_bytes());
}

struct Part {
    name: String,
    sh_type: u32,
    align: u64,
    entsize: u64,
    body: Vec<u8>,
}

fn part(name: &str, sh_type: u32, align: u64, entsize: u64, body: Vec<u8>) -> Part {
    Part {
        name: name.to_string(),
        sh_type,
        align,
        entsize,
        body,
    }
}

fn symbol_record(name: u32, value: u64) -> Vec<u8> {
    let mut out = Vec::new();
    put32(&mut out, name);
    out.push(0x12);
    out.push(0);
    put16(&mut out, 1);
    put64(&mut out, value);
    put64(&mut out, 8);
    out
}

fn parts() -> Vec<Part> {
    let mut all = vec![part("", 0, 0, 0, vec![])];
    for i in 1..35u8 {
        all.push(part(&format!(".s{}", i), 1, 4, 0, vec![i, i, i, i]));
    }
    let mut symtab = symbol_record(0, 0);
    symtab.extend(symbol_record(1, 0x401000));
    all.push(part(".symtab", 2, 8, 24, symtab));
    all.push(part(".strtab", 3, 1, 0, b"\0main\0".to_vec()));
    all.push(part(".shstrtab", 3, 1, 0, vec![]));
    all
}

/// A 64-bit little-endian image with 13 segments and the given sections,
/// written out byte by byte.
fn image_of(mut all: Vec<Part>, strndx: u16) -> Vec<u8> {
    let segments: u16 = 13;
    let mut names: Vec<u32> = Vec::new();
    let mut table: Vec<u8> = vec![0];
    for p in all.iter() {
        if p.name.is_empty() {
            names.push(0);
        } else {
            names.push(table.len() as u32);
            table.extend_from_slice(p.name.as_bytes());
            table.push(0);
        }
    }
    let last = all.len() - 1;
    if all[last].name == ".shstrtab" {
        all[last].body = table;
    }
    let mut at: u64 = 64 + 56 * segments as u64;
    let mut places: Vec<u64> = Vec::new();
    for p in all.iter() {
        places.push(at);
        at += p.body.len() as u64;
    }
    let shoff = (at + 7) / 8 * 8;

    let mut out: Vec<u8> = vec![0x7F, 0x45, 0x4C, 0x46, 2, 1, 1, 0, 0, 0, 0, 0, 0, 0, 0, 0];
    put16(&mut out, 2);
    put16(&mut out, 0x3E);
    put32(&mut out, 1);
    put64(&mut out, 0x401000);
    put64(&mut out, 64);
    put64(&mut out, shoff);
    put32(&mut out, 0);
    put16(&mut out, 64);
    put16(&mut out, 56);
    put16(&mut out, segments);
    put16(&mut out, 64);
    put16(&mut out, all.len() as u16);
    put16(&mut out, strndx);
    for i in 0..segments {
        let p_type: u32 = match i {
            0 => 6,
            1 => 3,
            _ => 1,
        };
        put32(&mut out, p_type);
        put32(&mut out, 4);
        put64(&mut out, 0x100 * i as u64);
        put64(&mut out, 0x400000);
        put64(&mut out, 0x400000);
        put64(&mut out, 0x10);
        put64(&mut out, 0x10);
        put64(&mut out, 8);
    }
    for p in all.iter() {
        out.extend_from_slice(&p.body);
    }
    while (out.len() as u64) < shoff {
        out.push(0);
    }
    for (i, p) in all.iter().enumerate() {
        put32(&mut out, names[i]);
        put32(&mut out, p.sh_type);
        put64(&mut out, 0);
        put64(&mut out, 0);
        put64(&mut out, places[i]);
        put64(&mut out, p.body.len() as u64);
        put32(&mut out, 0);
        put32(&mut out, 0);
        put64(&mut out, p.align);
        put64(&mut out, p.entsize);
    }
    out
}

fn image() -> Vec<u8> {
    image_of(parts(), 37)
}

#[test]
fn test_elf_read() {
    let data = image();
    let mut cursor = Reader::new(&data);
    let bin = Object::read(&mut cursor).unwrap();

    assert_eq!(bin.header.e_ident.ei_magic, [0x7F, 0x45, 0x4C, 0x46]);
    assert_eq!(&bin.segments.len(), &13);
    assert_eq!(&bin.sections.len(), &38);
    assert!(&bin.shstrtab.is_some());
    assert!(&bin.strtab.is_some());
}

#[test]
fn read_names_sections_and_symbols() {
    let data = image();
    let mut input = Reader::new(&data);
    input.seek(17);
    let bin = Object::read(&mut input).unwrap();
    assert_eq!(input.stream_position(), 0);
    assert_eq!(bin.find_section(".s7").unwrap().body, vec![7, 7, 7, 7]);
    assert_eq!(bin.find_section_idx(".s34"), Some(34));
    assert_eq!(bin.find_section_idx(".symtab"), Some(35));
    assert_eq!(bin.header.e_shstrndx, 37);
    assert_eq!(bin.header.e_shnum, 38);
    assert_eq!(bin.header.e_phnum, 13);
    let names: Vec<&String> = bin.symbols.keys().collect();
    assert_eq!(names, vec!["", "main"]);
    assert_eq!(bin.symbols.get("main").unwrap().sym_value, 0x401000);
    assert_eq!(bin.strtab.as_ref().unwrap().body, b"\0main\0".to_vec());
    assert_eq!(bin.segments[0].header.p_type, 6);
    assert_eq!(bin.segments[0].header.p_filesz, 13 * 56);
    assert_eq!(bin.segments[1].header.p_offset, 0x100);
    assert_eq!(bin.segments[12].header.p_offset, 0xC00);
}

#[test]
fn read_lays_the_object_out() {
    let data = image();
    let bin = Object::read(&mut Reader::new(&data)).unwrap();
    assert_eq!(bin.find_section(".strtab").unwrap().body, b"\0\0main\0".to_vec());
    assert_eq!(bin.symbols.get("main").unwrap().sym_name, 2);
    assert_eq!(bin.find_section("").unwrap().header.sh_offset, 792);
    assert_eq!(bin.find_section(".s1").unwrap().header.sh_offset, 792);
    assert_eq!(bin.find_section(".s2").unwrap().header.sh_offset, 796);
    assert_eq!(bin.header.e_shoff % 16, 0);
}

#[test]
fn read_keeps_the_later_of_two_sections_with_one_name() {
    let mut all = parts();
    all[5].name = ".s2".to_string();
    let data = image_of(all, 37);
    let bin = Object::read(&mut Reader::new(&data)).unwrap();
    assert_eq!(bin.sections.len(), 37);
    assert_eq!(bin.find_section_idx(".s2"), Some(2));
    assert_eq!(bin.find_section(".s2").unwrap().body, vec![5, 5, 5, 5]);
    assert_eq!(bin.header.e_shnum, 37);
    assert_eq!(bin.header.e_shstrndx, 36);
}

#[test]
fn read_rejects_an_image_that_is_no_elf() {
    let mut data = image();
    data[0] = 0x7E;
    assert!(matches!(
        Object::read(&mut Reader::new(&data)),
        Err(ElfError::InvalidMagic)
    ));
    let mut data = image();
    data[4] = 7;
    assert!(matches!(
        Object::read(&mut Reader::new(&data)),
        Err(ElfError::UnsupportedClass)
    ));
    let mut data = image();
    data[5] = 7;
    assert!(matches!(
        Object::read(&mut Reader::new(&data)),
        Err(ElfError::UnsupportedEndianness)
    ));
}

#[test]
fn read_rejects_a_truncated_image() {
    let data = image();
    for cut in [0usize, 10, 64, 100, 791, 900, data.len() - 1] {
        assert!(matches!(
            Object::read(&mut Reader::new(&data[..cut])),
            Err(ElfError::TruncatedInput)
        ));
    }
}

#[test]
fn read_rejects_a_body_that_runs_past_the_end() {
    let mut data = image();
    let shoff = u64::from_le_bytes(data[40..48].try_into().unwrap()) as usize;
    let size_at = shoff + 3 * 64 + 32;
    data[size_at..size_at + 8].copy_from_slice(&u64::MAX.to_le_bytes());
    assert!(matches!(
        Object::read(&mut Reader::new(&data)),
        Err(ElfError::TruncatedInput)
    ));
}

#[test]
fn read_needs_the_section_name_table() {
    let data = image_of(parts(), 38);
    assert!(matches!(
        Object::read(&mut Reader::new(&data)),
        Err(ElfError::MissingRequiredSection(".shstrtab"))
    ));
}

#[test]
fn read_needs_a_section_named_shstrtab() {
    let mut all = parts();
    all[36].name = ".names".to_string();
    all[37].name = ".strtab".to_string();
    all[37].body = b"\0main\0.s1\0".to_vec();
    let mut data = image_of(all, 36);
    // the table of index 36 holds the names; point every entry into it
    let shoff = u64::from_le_bytes(data[40..48].try_into().unwrap()) as usize;
    for i in 0..38 {
        let at = shoff + i * 64;
        let name: u32 = match i {
            0 => 0,
            36 => 1,
            _ => 2,
        };
        data[at..at + 4].copy_from_slice(&name.to_le_bytes());
    }
    assert!(matches!(
        Object::read(&mut Reader::new(&data)),
        Err(ElfError::MissingRequiredSection(".symtab"))
    ));
}

#[test]
fn read_needs_the_symbol_table() {
    let mut all = parts();
    all[35].name = ".other".to_string();
    let data = image_of(all, 37);
    assert!(matches!(
        Object::read(&mut Reader::new(&data)),
        Err(ElfError::MissingRequiredSection(".symtab"))
    ));
}

#[test]
fn read_needs_the_symbol_name_table() {
    let mut all = parts();
    all[36].name = ".other".to_string();
    let data = image_of(all, 37);
    assert!(matches!(
        Object::read(&mut Reader::new(&data)),
        Err(ElfError::MissingRequiredSection(".strtab"))
    ));
}

#[test]
fn read_rejects_a_name_offset_outside_the_table() {
    let mut data = image();
    let shoff = u64::from_le_bytes(data[40..48].try_into().unwrap()) as usize;
    let at = shoff + 4 * 64;
    data[at..at + 4].copy_from_slice(&100_000u32.to_le_bytes());
    assert!(matches!(
        Object::read(&mut Reader::new(&data)),
        Err(ElfError::NameTableOutOfBounds)
    ));
}

#[test]
fn read_rejects_a_symbol_name_outside_the_table() {
    let mut all = parts();
    let mut symtab = symbol_record(0, 0);
    symtab.extend(symbol_record(6, 1));
    all[35].body = symtab;
    let data = image_of(all, 37);
    assert!(matches!(
        Object::read(&mut Reader::new(&data)),
        Err(ElfError::NameTableOutOfBounds)
    ));
}

#[test]
fn read_rejects_a_name_that_is_not_utf8() {
    let mut all = parts();
    all[36].body = vec![0, 0xFF, 0xFF, 0xFF, 0xFF, 0];
    let data = image_of(all, 37);
    assert!(matches!(
        Object::read(&mut Reader::new(&data)),
        Err(ElfError::DecodeError)
    ));
}

#[test]
fn read_rejects_a_name_without_terminator() {
    let mut all = parts();
    all[36].body = b"\0main".to_vec();
    let data = image_of(all, 37);
    assert!(matches!(
        Object::read(&mut Reader::new(&data)),
        Err(ElfError::TruncatedInput)
    ));
}

#[test]
fn read_rejects_a_symbol_table_without_entry_size() {
    let mut all = parts();
    all[35].entsize = 0;
    let data = image_of(all, 37);
    assert!(matches!(
        Object::read(&mut Reader::new(&data)),
        Err(ElfError::TruncatedInput)
    ));
}

#[test]
fn read_rejects_a_symbol_table_with_too_small_an_entry_size() {
    let mut all = parts();
    all[35].entsize = 12;
    let data = image_of(all, 37);
    assert!(matches!(
        Object::read(&mut Reader::new(&data)),
        Err(ElfError::TruncatedInput)
    ));
}

#[test]
fn read_reports_a_layout_that_does_not_fit() {
    let mut all = parts();
    all[1].align = 1 << 63;
    all[2].align = 1 << 63;
    let data = image_of(all, 37);
    assert!(matches!(
        Object::read(&mut Reader::new(&data)),
        Err(ElfError::OffsetOverflow)
    ));
}
