use zehn::error::ElfError;
use zehn::layout::resolve_name;
use zehn::object::{Class, Endianness, Header, Ident, Object};
use zehn::section::{Section, SectionHeader};
use zehn::segment::{ProgramHeader, Segment};
use zehn::stream::{Cursor, Reader};
use zehn::symbol::Symbol;
use zehn::util::SeekExt;

fn header(class: Class, data: Endianness) -> Header {
    let wide = class == Class::Bits64;
    Header {
        e_ident: Ident {
            ei_magic: [0x7F, 0x45, 0x4C, 0x46],
            ei_class: class,
            ei_data: data,
            ei_version: 1,
            ei_osabi: 0,
            ei_abiversion: 0,
            ei_pad: [0; 7],
        },
        e_type: 2,
        e_machine: 0x3E,
        e_version: 1,
        e_entry: 0x401000,
        e_phoff: if wide { 64 } else { 52 },
        e_shoff: 0,
        e_flags: 0,
        e_ehsize: if wide { 64 } else { 52 },
        e_phentsize: if wide { 56 } else { 32 },
        e_phnum: 2,
        e_shentsize: if wide { 64 } else { 40 },
        e_shnum: 0,
        e_shstrndx: 0,
    }
}

fn section(sh_type: u32, align: u64, entsize: u64, body: Vec<u8>) -> Section {
    Section {
        header: SectionHeader {
            sh_name: 0,
            sh_type,
            sh_flags: 0,
            sh_addr: 0,
            sh_offset: 0,
            sh_size: body.len() as u64,
            sh_link: 0,
            sh_info: 0,
            sh_addralign: align,
            sh_entsize: entsize,
        },
        body,
    }
}

fn segment(p_type: u32, p_offset: u64) -> Segment {
    Segment::new(ProgramHeader {
        p_type,
        p_flags: 4,
        p_offset,
        p_vaddr: 0x400000 + p_offset,
        p_paddr: 0x400000 + p_offset,
        p_filesz: 0x20,
        p_memsz: 0x20,
        p_align: 8,
    })
}

fn symbol(value: u64) -> Symbol {
    Symbol {
        sym_name: 0,
        sym_info: 0x12,
        sym_other: 0,
        sym_shndx: 1,
        sym_value: value,
        sym_size: 4,
    }
}

fn sample(class: Class, data: Endianness) -> Object {
    let wide = class == Class::Bits64;
    let mut obj = Object::new();
    obj.header = header(class, data);
    obj.segments.push(segment(6, 64));
    obj.segments.push(segment(3, 0x200));
    obj.segments.push(segment(1, 0));
    obj.sections.insert("".to_string(), section(0, 0, 0, vec![]));
    obj.sections.insert(".text".to_string(), section(1, 16, 0, vec![1, 2, 3, 4, 5]));
    obj.sections.insert(".data".to_string(), section(1, 8, 0, vec![9, 9, 9]));
    obj.sections.insert(
        ".symtab".to_string(),
        section(2, 8, if wide { 24 } else { 16 }, vec![]),
    );
    obj.sections.insert(".strtab".to_string(), section(3, 1, 0, vec![]));
    obj.sections.insert(".shstrtab".to_string(), section(3, 1, 0, vec![]));
    obj.symbols.insert("".to_string(), symbol(0));
    obj.symbols.insert("main".to_string(), symbol(0x401000));
    obj.symbols.insert("helper".to_string(), symbol(0x401020));
    obj
}

fn offsets(obj: &Object) -> Vec<u64> {
    obj.sections.values().map(|s| s.header.sh_offset).collect()
}

#[test]
fn new_object_is_empty() {
    let obj = Object::new();
    assert_eq!(obj.header, Header::default());
    assert!(obj.segments.is_empty());
    assert!(obj.sections.is_empty());
    assert!(obj.symbols.is_empty());
    assert!(obj.shstrtab.is_none());
    assert!(obj.strtab.is_none());
}

#[test]
fn update_sets_counts_and_table_index() {
    let mut obj = sample(Class::Bits64, Endianness::Little);
    assert_eq!(obj.update(), Ok(()));
    assert_eq!(obj.header.e_phnum, 3);
    assert_eq!(obj.header.e_shnum, 6);
    assert_eq!(obj.header.e_shstrndx, 5);
    assert_eq!(obj.header.e_phoff, 64);
    assert_eq!(obj.header.e_shoff, 384);
}

#[test]
fn update_assigns_aligned_offsets_in_order() {
    let mut obj = sample(Class::Bits64, Endianness::Little);
    obj.update().unwrap();
    assert_eq!(offsets(&obj), vec![232, 240, 248, 256, 328, 342]);
    let mut end: u64 = 0;
    for s in obj.sections.values() {
        let align = s.header.sh_addralign;
        if align != 0 && align != 1 {
            assert_eq!(s.header.sh_offset % align, 0);
        }
        assert!(s.header.sh_offset >= end);
        end = s.header.sh_offset + s.body.len() as u64;
    }
    assert!(obj.header.e_shoff >= end);
    assert_eq!(obj.header.e_shoff % 16, 0);
}

#[test]
fn update_builds_the_string_tables() {
    let mut obj = sample(Class::Bits64, Endianness::Little);
    obj.update().unwrap();
    let strtab = obj.find_section(".strtab").unwrap();
    assert_eq!(strtab.body, b"\0\0main\0helper\0".to_vec());
    assert_eq!(strtab.header.sh_size, 14);
    let shstrtab = obj.find_section(".shstrtab").unwrap();
    assert_eq!(
        shstrtab.body,
        b"\0\0.text\0.data\0.symtab\0.strtab\0.shstrtab\0".to_vec()
    );
    assert_eq!(shstrtab.header.sh_size, 40);
    let names: Vec<u32> = obj.sections.values().map(|s| s.header.sh_name).collect();
    assert_eq!(names, vec![1, 2, 8, 14, 22, 30]);
    let symbol_names: Vec<u32> = obj.symbols.values().map(|s| s.sym_name).collect();
    assert_eq!(symbol_names, vec![1, 2, 7]);
}

#[test]
fn update_builds_the_symbol_table_from_the_old_name_offsets() {
    let mut obj = sample(Class::Bits64, Endianness::Little);
    obj.update().unwrap();
    let first = obj.find_section(".symtab").unwrap().clone();
    assert_eq!(first.body.len(), 72);
    assert_eq!(first.header.sh_size, 72);
    assert_eq!(&first.body[24..28], &[0, 0, 0, 0]);
    obj.update().unwrap();
    let second = obj.find_section(".symtab").unwrap();
    assert_eq!(&second.body[24..28], &[2, 0, 0, 0]);
    assert_eq!(&second.body[48..52], &[7, 0, 0, 0]);
    assert_eq!(&second.body[32..40], &[0, 0x10, 0x40, 0, 0, 0, 0, 0]);
}

#[test]
fn update_twice_changes_nothing_but_the_symbol_table_body() {
    for class in [Class::Bits32, Class::Bits64] {
        let mut obj = sample(class, Endianness::Big);
        obj.update().unwrap();
        let once = obj.clone();
        obj.update().unwrap();
        assert_eq!(obj.header, once.header);
        assert_eq!(obj.segments, once.segments);
        assert_eq!(obj.symbols, once.symbols);
        assert_eq!(obj.sections.len(), once.sections.len());
        for (name, s) in obj.sections.iter() {
            let before = once.find_section(name).unwrap();
            assert_eq!(s.header, before.header);
            if name != ".symtab" {
                assert_eq!(s.body, before.body);
            }
        }
        let twice = obj.clone();
        obj.update().unwrap();
        assert_eq!(obj.sections, twice.sections);
    }
}

#[test]
fn update_keeps_ordinary_sections_and_the_table_offset() {
    let mut obj = sample(Class::Bits64, Endianness::Little);
    obj.header.e_phoff = 0x1234;
    obj.find_section_mut(".text").unwrap().header.sh_size = 77;
    obj.update().unwrap();
    assert_eq!(obj.header.e_phoff, 0x1234);
    let text = obj.find_section(".text").unwrap();
    assert_eq!(text.body, vec![1, 2, 3, 4, 5]);
    assert_eq!(text.header.sh_size, 77);
    assert_eq!(text.header.sh_addralign, 16);
}

#[test]
fn update_patches_the_special_segments() {
    let mut obj = sample(Class::Bits64, Endianness::Little);
    obj.update().unwrap();
    assert_eq!(obj.segments[0].header.p_filesz, 3 * 56);
    assert_eq!(obj.segments[0].header.p_memsz, 3 * 56);
    assert_eq!(obj.segments[0].header.p_offset, 64);
    assert_eq!(obj.segments[1].header.p_offset, 0x200 + 56);
    assert_eq!(obj.segments[1].header.p_filesz, 0x20);
    assert_eq!(obj.segments[2], segment(1, 0));
}

#[test]
fn adding_one_segment_moves_the_interpreter_by_one_entry() {
    let mut obj = sample(Class::Bits32, Endianness::Little);
    obj.update().unwrap();
    let before = obj.segments[1].header.p_offset;
    obj.segments.push(segment(1, 0x3000));
    obj.update().unwrap();
    assert_eq!(obj.header.e_phnum, 4);
    assert_eq!(obj.segments[1].header.p_offset, before + 32);
    assert_eq!(obj.segments[0].header.p_filesz, 4 * 32);
    assert_eq!(obj.segments[0].header.p_memsz, 4 * 32);
    obj.update().unwrap();
    assert_eq!(obj.segments[1].header.p_offset, before + 32);
}

#[test]
fn removing_a_segment_moves_the_interpreter_back() {
    let mut obj = sample(Class::Bits64, Endianness::Little);
    obj.update().unwrap();
    let before = obj.segments[1].header.p_offset;
    obj.segments.pop();
    obj.update().unwrap();
    assert_eq!(obj.header.e_phnum, 2);
    assert_eq!(obj.segments[1].header.p_offset, before - 56);
}

#[test]
fn update_without_symtab_fails() {
    let mut obj = Object::new();
    assert_eq!(
        obj.update(),
        Err(ElfError::MissingRequiredSection(".symtab"))
    );
}

#[test]
fn update_without_strtab_fails() {
    let mut obj = Object::new();
    obj.sections
        .insert(".symtab".to_string(), section(2, 8, 24, vec![]));
    obj.sections
        .insert(".shstrtab".to_string(), section(3, 1, 0, vec![]));
    assert_eq!(
        obj.update(),
        Err(ElfError::MissingRequiredSection(".strtab"))
    );
}

#[test]
fn update_without_shstrtab_fails_and_changes_nothing() {
    let mut obj = sample(Class::Bits64, Endianness::Little);
    obj.sections.shift_remove(".shstrtab");
    let before = obj.clone();
    assert_eq!(
        obj.update(),
        Err(ElfError::MissingRequiredSection(".shstrtab"))
    );
    assert_eq!(obj.header, before.header);
    assert_eq!(obj.sections, before.sections);
    assert_eq!(obj.symbols, before.symbols);
    assert_eq!(obj.segments, before.segments);
}

#[test]
fn update_reports_a_layout_that_does_not_fit() {
    let mut obj = sample(Class::Bits64, Endianness::Little);
    obj.find_section_mut(".text").unwrap().header.sh_addralign = 1 << 63;
    obj.find_section_mut(".data").unwrap().header.sh_addralign = 1 << 63;
    let before = obj.clone();
    assert_eq!(obj.update(), Err(ElfError::OffsetOverflow));
    assert_eq!(obj.header, before.header);
    assert_eq!(obj.sections, before.sections);
}

#[test]
fn update_reports_an_interpreter_that_would_move_before_the_start() {
    let mut obj = sample(Class::Bits64, Endianness::Little);
    obj.header.e_phnum = 40;
    let before = obj.clone();
    assert_eq!(obj.update(), Err(ElfError::OffsetOverflow));
    assert_eq!(obj.segments, before.segments);
    assert_eq!(obj.header, before.header);
    obj.segments[1].header.p_offset = 37 * 56;
    assert_eq!(obj.update(), Ok(()));
    assert_eq!(obj.segments[1].header.p_offset, 0);
}

#[test]
fn find_section_looks_up_by_name() {
    let obj = sample(Class::Bits64, Endianness::Little);
    assert_eq!(obj.find_section(".data").unwrap().body, vec![9, 9, 9]);
    assert!(obj.find_section(".bss").is_none());
    assert_eq!(obj.find_section_idx(""), Some(0));
    assert_eq!(obj.find_section_idx(".data"), Some(2));
    assert_eq!(obj.find_section_idx(".shstrtab"), Some(5));
    assert_eq!(obj.find_section_idx(".bss"), None);
}

#[test]
fn find_section_mut_edits_in_place() {
    let mut obj = sample(Class::Bits64, Endianness::Little);
    obj.find_section_mut(".data").unwrap().body.push(7);
    assert!(obj.find_section_mut(".bss").is_none());
    assert_eq!(obj.find_section(".data").unwrap().body, vec![9, 9, 9, 7]);
    assert_eq!(obj.find_section_idx(".data"), Some(2));
    assert_eq!(obj.sections.len(), 6);
}

#[test]
fn get_sections_filters_by_type_in_order() {
    let obj = sample(Class::Bits64, Endianness::Little);
    let progbits = obj.get_sections(1);
    assert_eq!(progbits.len(), 2);
    assert_eq!(progbits[0].body, vec![1, 2, 3, 4, 5]);
    assert_eq!(progbits[1].body, vec![9, 9, 9]);
    assert_eq!(obj.get_sections(3).len(), 2);
    assert_eq!(obj.get_sections(2).len(), 1);
    assert!(obj.get_sections(8).is_empty());
}

#[test]
fn get_sections_mut_edits_only_the_given_type() {
    let mut obj = sample(Class::Bits64, Endianness::Little);
    {
        let mut found = obj.get_sections_mut(1);
        assert_eq!(found.len(), 2);
        found[0].header.sh_flags = 6;
        found[1].body.clear();
    }
    assert_eq!(obj.find_section(".text").unwrap().header.sh_flags, 6);
    assert_eq!(obj.find_section(".text").unwrap().body, vec![1, 2, 3, 4, 5]);
    assert!(obj.find_section(".data").unwrap().body.is_empty());
    assert_eq!(obj.find_section(".strtab").unwrap().header.sh_flags, 0);
    assert!(obj.get_sections_mut(99).is_empty());
}

#[test]
fn get_symbols_returns_all_in_order() {
    let mut obj = sample(Class::Bits64, Endianness::Little);
    let values: Vec<u64> = obj.get_symbols().iter().map(|s| s.sym_value).collect();
    assert_eq!(values, vec![0, 0x401000, 0x401020]);
    {
        let mut all = obj.get_symbols_mut();
        assert_eq!(all.len(), 3);
        all[2].sym_size = 99;
    }
    assert_eq!(obj.symbols.get("helper").unwrap().sym_size, 99);
    assert_eq!(obj.symbols.get("main").unwrap().sym_size, 4);
}

#[test]
fn names_resolve_after_update() {
    let mut obj = sample(Class::Bits32, Endianness::Big);
    obj.update().unwrap();
    for (name, sym) in obj.symbols.iter() {
        assert_eq!(sym.get_name(&obj), Ok(name.clone()));
    }
    let table = obj.find_section(".shstrtab").unwrap().body.clone();
    let mut seen: Vec<u32> = Vec::new();
    for (name, s) in obj.sections.iter() {
        assert_eq!(resolve_name(&table, s.header.sh_name), Ok(name.clone()));
        assert!(!seen.contains(&s.header.sh_name));
        seen.push(s.header.sh_name);
    }
    assert_eq!(resolve_name(&table, 0), Ok(String::new()));
    let strtab = obj.find_section(".strtab").unwrap().body.clone();
    assert_eq!(resolve_name(&strtab, 0), Ok(String::new()));
}

#[test]
fn get_name_needs_the_string_table() {
    let obj = Object::new();
    assert_eq!(
        symbol(0).get_name(&obj),
        Err(ElfError::MissingRequiredSection(".strtab"))
    );
}

#[test]
fn get_name_checks_the_offset() {
    let mut obj = sample(Class::Bits64, Endianness::Little);
    obj.update().unwrap();
    let mut sym = symbol(0);
    sym.sym_name = 14;
    assert_eq!(sym.get_name(&obj), Err(ElfError::NameTableOutOfBounds));
    sym.sym_name = 13;
    assert_eq!(sym.get_name(&obj), Ok(String::new()));
    sym.sym_name = 4;
    assert_eq!(sym.get_name(&obj), Ok("in".to_string()));
}

#[test]
fn resolve_name_reports_each_failure() {
    let table: Vec<u8> = vec![0, b'a', 0, 0xFF, 0, b'b'];
    assert_eq!(resolve_name(&table, 1), Ok("a".to_string()));
    assert_eq!(resolve_name(&table, 3), Err(ElfError::DecodeError));
    assert_eq!(resolve_name(&table, 5), Err(ElfError::TruncatedInput));
    assert_eq!(resolve_name(&table, 6), Err(ElfError::NameTableOutOfBounds));
    assert_eq!(resolve_name(&[], 0), Err(ElfError::NameTableOutOfBounds));
}

#[test]
fn write_then_read_gives_the_object_back() {
    for class in [Class::Bits32, Class::Bits64] {
        for data in [Endianness::Little, Endianness::Big] {
            let mut obj = sample(class, data);
            obj.update().unwrap();
            let mut out = Cursor::new(Vec::new());
            assert_eq!(obj.write(&mut out), Ok(()));
            let image = out.into_inner();
            let mut input = Reader::new(&image);
            let back = Object::read(&mut input).unwrap();
            assert_eq!(input.stream_position(), 0);
            assert_eq!(back.header, obj.header);
            assert_eq!(back.segments, obj.segments);
            assert_eq!(back.symbols, obj.symbols);
            let names: Vec<&String> = back.symbols.keys().collect();
            assert_eq!(names, vec!["", "main", "helper"]);
            let left: Vec<(&String, &Section)> = back.sections.iter().collect();
            let right: Vec<(&String, &Section)> = obj.sections.iter().collect();
            assert_eq!(left, right);
            assert_eq!(back.shstrtab.as_ref(), obj.find_section(".shstrtab"));
            assert_eq!(back.strtab.as_ref(), obj.find_section(".strtab"));
        }
    }
}

#[test]
fn write_places_every_part_at_its_offset() {
    let mut obj = sample(Class::Bits64, Endianness::Little);
    obj.update().unwrap();
    let mut out = Cursor::new(Vec::new());
    obj.write(&mut out).unwrap();
    let image = out.into_inner();
    assert_eq!(image.len(), 384 + 6 * 64);
    assert_eq!(&image[0..4], &[0x7F, 0x45, 0x4C, 0x46]);
    assert_eq!(&image[64..68], &[6, 0, 0, 0]);
    assert_eq!(&image[232..240], &[0; 8]);
    assert_eq!(&image[240..245], &[1, 2, 3, 4, 5]);
    assert_eq!(&image[245..248], &[0, 0, 0]);
    assert_eq!(&image[248..251], &[9, 9, 9]);
    assert_eq!(&image[328..342], b"\0\0main\0helper\0");
    assert_eq!(&image[384 + 64..384 + 68], &[2, 0, 0, 0]);
    assert_eq!(&image[384 + 64 + 24..384 + 64 + 32], &[240, 0, 0, 0, 0, 0, 0, 0]);
}

#[test]
fn write_keeps_what_the_object_does_not_cover() {
    let mut obj = sample(Class::Bits64, Endianness::Little);
    obj.update().unwrap();
    let mut out = Cursor::new(vec![0xAA; 1000]);
    out.seek(500);
    obj.write(&mut out).unwrap();
    let image = out.into_inner();
    assert_eq!(image.len(), 1000);
    assert_eq!(&image[0..4], &[0x7F, 0x45, 0x4C, 0x46]);
    assert_eq!(&image[245..248], &[0xAA, 0xAA, 0xAA]);
    assert_eq!(image[999], 0xAA);
}

#[test]
fn write_without_required_sections_writes_nothing() {
    let mut obj = Object::new();
    let mut out = Cursor::new(vec![1, 2, 3]);
    out.seek(1);
    assert_eq!(
        obj.write(&mut out),
        Err(ElfError::MissingRequiredSection(".symtab"))
    );
    assert_eq!(out.stream_position(), 1);
    assert_eq!(out.into_inner(), vec![1, 2, 3]);
}

#[test]
fn write_reports_a_table_offset_out_of_reach() {
    let mut obj = sample(Class::Bits64, Endianness::Little);
    obj.header.e_phoff = u64::MAX - 10;
    let mut out = Cursor::new(Vec::new());
    assert_eq!(obj.write(&mut out), Err(ElfError::OffsetOverflow));
    assert_eq!(obj.header.e_shnum, 6);
}
