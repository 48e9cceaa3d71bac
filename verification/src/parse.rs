use vstd::prelude::*;
use crate::error::ElfError;
use crate::layout::resolved_name;
use crate::object::Header;
use crate::object::ObjectView;
use crate::section::SectionHeader;
use crate::section::SectionView;
use crate::segment::ProgramHeader;
use crate::segment::Segment;
use crate::symbol::Symbol;
use crate::tables::find_name;
use crate::tables::inserted;
use crate::tables::names_of;

verus! {

/// The entries of a map into which every value was stored under its name,
/// in order: a name that comes again keeps its first place and takes the
/// later value.
pub open spec fn inserted_all<V>(names: Seq<Seq<char>>, values: Seq<V>) -> Seq<(Seq<char>, V)>
    decreases names.len(),
{
    if names.len() == 0 {
        Seq::empty()
    } else {
        inserted(
            inserted_all(names.drop_last(), values.drop_last()),
            names.last(),
            values.last(),
        )
    }
}

/// What stands at each of `offsets` in a string table.
pub open spec fn names_at(table: Seq<u8>, offsets: Seq<u32>) -> Seq<Result<Seq<char>, ElfError>> {
    Seq::new(offsets.len(), |k: int| resolved_name(table, offsets[k] as int))
}

/// The error of the first name that could not be read, if there is one.
pub open spec fn first_failure(results: Seq<Result<Seq<char>, ElfError>>) -> Option<ElfError>
    decreases results.len(),
{
    if results.len() == 0 {
        None
    } else {
        match first_failure(results.drop_last()) {
            Some(e) => Some(e),
            None => match results.last() {
                Ok(_) => None,
                Err(e) => Some(e),
            },
        }
    }
}

/// The names that were read, where every one could be read.
pub open spec fn successes(results: Seq<Result<Seq<char>, ElfError>>) -> Seq<Seq<char>> {
    Seq::new(
        results.len(),
        |k: int|
            match results[k] {
                Ok(name) => name,
                Err(_) => Seq::empty(),
            },
    )
}

/// The name offset of every section.
pub open spec fn section_name_offsets(sections: Seq<SectionView>) -> Seq<u32> {
    Seq::new(sections.len(), |k: int| sections[k].header.sh_name)
}

/// The name offset of every symbol.
pub open spec fn symbol_name_offsets(symbols: Seq<Symbol>) -> Seq<u32> {
    Seq::new(symbols.len(), |k: int| symbols[k].sym_name)
}

impl ObjectView {
    /// Where entry `k` of the program header table starts in the image.
    pub open spec fn segment_at(h: Header, k: int) -> int {
        h.e_phoff + k * ProgramHeader::encoded_len(h.e_ident.ei_class)
    }

    /// Where entry `k` of the section header table starts in the image.
    pub open spec fn section_header_at(h: Header, k: int) -> int {
        h.e_shoff + k * SectionHeader::encoded_len(h.e_ident.ei_class)
    }

    /// The segments that the program header table of the image holds.
    pub open spec fn parsed_segments(h: Header, data: Seq<u8>) -> Seq<Segment> {
        Seq::new(
            h.e_phnum as nat,
            |k: int|
                Segment {
                    header: ProgramHeader::decoding(
                        h.e_ident.ei_class,
                        h.e_ident.ei_data,
                        data,
                        Self::segment_at(h, k),
                    ),
                },
        )
    }

    /// Whether the program header table runs past the end of the image.
    pub open spec fn segments_truncated(h: Header, data: Seq<u8>) -> bool {
        h.e_phnum > 0 && Self::segment_at(h, h.e_phnum as int) > data.len()
    }

    /// Entry `k` of the section header table of the image.
    pub open spec fn parsed_section_header(h: Header, data: Seq<u8>, k: int) -> SectionHeader {
        SectionHeader::decoding(
            h.e_ident.ei_class,
            h.e_ident.ei_data,
            data,
            Self::section_header_at(h, k),
        )
    }

    /// Section `k` of the image: its header, and as its body the bytes that
    /// offset and size in the header name.
    pub open spec fn parsed_section(h: Header, data: Seq<u8>, k: int) -> SectionView {
        let header = Self::parsed_section_header(h, data, k);
        SectionView {
            header: header,
            body: data.subrange(header.sh_offset as int, header.sh_offset + header.sh_size),
        }
    }

    /// The sections of the image, in table order.
    pub open spec fn parsed_sections(h: Header, data: Seq<u8>) -> Seq<SectionView> {
        Seq::new(h.e_shnum as nat, |k: int| Self::parsed_section(h, data, k))
    }

    /// Whether section `k` runs past the end of the image, with its header
    /// or with its body.
    pub open spec fn section_truncated(h: Header, data: Seq<u8>, k: int) -> bool {
        Self::section_header_at(h, k + 1) > data.len() || Self::parsed_section_header(
            h,
            data,
            k,
        ).sh_offset + Self::parsed_section_header(h, data, k).sh_size > data.len()
    }

    /// Whether some section runs past the end of the image.
    pub open spec fn sections_truncated(h: Header, data: Seq<u8>) -> bool {
        exists|k: int| 0 <= k < h.e_shnum && #[trigger] Self::section_truncated(h, data, k)
    }

    /// The sections of the image under their names, as they stand in the
    /// string table that the header names, or the first error on the way.
    pub open spec fn parsed_named_sections(h: Header, data: Seq<u8>) -> Result<
        Seq<(Seq<char>, SectionView)>,
        ElfError,
    > {
        let sections = Self::parsed_sections(h, data);
        if Self::sections_truncated(h, data) {
            Err(ElfError::TruncatedInput)
        } else if h.e_shstrndx >= h.e_shnum {
            Err(ElfError::MissingRequiredSection(".shstrtab"))
        } else {
            let names = names_at(
                sections[h.e_shstrndx as int].body,
                section_name_offsets(sections),
            );
            match first_failure(names) {
                Some(e) => Err(e),
                None => Ok(inserted_all(successes(names), sections)),
            }
        }
    }

    /// How many symbol records the symbol table announces.
    pub open spec fn symbol_count(symtab: SectionView) -> int {
        symtab.header.sh_size as int / symtab.header.sh_entsize as int
    }

    /// The symbols that the body of the symbol table holds.
    pub open spec fn parsed_symbols(h: Header, symtab: SectionView) -> Seq<Symbol> {
        Seq::new(
            Self::symbol_count(symtab) as nat,
            |k: int|
                Symbol::decoding(
                    h.e_ident.ei_class,
                    h.e_ident.ei_data,
                    symtab.body,
                    k * Symbol::encoded_len(h.e_ident.ei_class),
                ),
        )
    }

    /// Whether the symbol table announces more records than its body holds.
    /// A table whose entry size is zero announces no count at all.
    pub open spec fn symbols_truncated(h: Header, symtab: SectionView) -> bool {
        symtab.header.sh_entsize == 0 || Self::symbol_count(symtab) * Symbol::encoded_len(
            h.e_ident.ei_class,
        ) > symtab.body.len()
    }

    /// The symbols of the image under their names, or the first error on the
    /// way: `.symtab` is looked for and read first, then `.strtab`.
    pub open spec fn parsed_named_symbols(h: Header, sections: Seq<(Seq<char>, SectionView)>)
        -> Result<Seq<(Seq<char>, Symbol)>, ElfError> {
        match find_name(names_of(sections), ".symtab"@) {
            None => Err(ElfError::MissingRequiredSection(".symtab")),
            Some(at) => {
                let symtab = sections[at].1;
                if Self::symbols_truncated(h, symtab) {
                    Err(ElfError::TruncatedInput)
                } else {
                    match find_name(names_of(sections), ".strtab"@) {
                        None => Err(ElfError::MissingRequiredSection(".strtab")),
                        Some(names_in) => {
                            let symbols = Self::parsed_symbols(h, symtab);
                            let names = names_at(
                                sections[names_in].1.body,
                                symbol_name_offsets(symbols),
                            );
                            match first_failure(names) {
                                Some(e) => Err(e),
                                None => Ok(inserted_all(successes(names), symbols)),
                            }
                        },
                    }
                }
            },
        }
    }

    /// The object as it stands in the image, before any layout, or the first
    /// error on the way: the file header, then the two tables and the
    /// section bodies, then the section names, then the symbols.
    pub open spec fn parsed_raw(data: Seq<u8>) -> Result<ObjectView, ElfError> {
        match Header::decoding_error(data, 0) {
            Some(e) => Err(e),
            None => {
                let h = Header::decoding(data, 0);
                if Self::segments_truncated(h, data) {
                    Err(ElfError::TruncatedInput)
                } else {
                    match Self::parsed_named_sections(h, data) {
                        Err(e) => Err(e),
                        Ok(sections) => match Self::parsed_named_symbols(h, sections) {
                            Err(e) => Err(e),
                            Ok(symbols) => Ok(
                                ObjectView {
                                    header: h,
                                    segments: Self::parsed_segments(h, data),
                                    sections: sections,
                                    symbols: symbols,
                                    shstrtab: Some(
                                        Self::parsed_sections(h, data)[h.e_shstrndx as int],
                                    ),
                                    strtab: Some(
                                        sections[find_name(
                                            names_of(sections),
                                            ".strtab"@,
                                        ).unwrap()].1,
                                    ),
                                },
                            ),
                        },
                    }
                }
            },
        }
    }

    /// What reading an image gives: the object that stands in it, laid out,
    /// or the first error on the way.
    pub open spec fn parsed(data: Seq<u8>) -> Result<ObjectView, ElfError> {
        match Self::parsed_raw(data) {
            Err(e) => Err(e),
            Ok(raw) => match raw.layout_error() {
                Some(e) => Err(e),
                None => Ok(raw.laid_out()),
            },
        }
    }
}

} // verus!
