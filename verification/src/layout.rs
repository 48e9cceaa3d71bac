use vstd::prelude::*;
use vstd::utf8::decode_utf8;
use vstd::utf8::encode_utf8;
use vstd::utf8::valid_utf8;
use indexmap::IndexMap;
use crate::error::ElfError;
use crate::object::Class;
use crate::object::Endianness;
use crate::object::Header;
use crate::object::Object;
use crate::object::ObjectView;
use crate::section::Section;
use crate::section::SectionHeader;
use crate::section::SectionView;
use crate::segment::ptype::PT_INTERP;
use crate::segment::ptype::PT_PHDR;
use crate::segment::ProgramHeader;
use crate::segment::Segment;
use crate::symbol::Symbol;
use crate::tables::find_name;
use crate::tables::lemma_find_name;
use crate::tables::names_of;
use crate::tables::sections_get_index_mut;
use crate::tables::sections_get_index_of;
use crate::tables::symbols_get_index_mut;
use crate::tables::section_entries;
use crate::tables::sections_get_index;
use crate::tables::sections_len;
use crate::tables::symbol_entries;
use crate::tables::symbols_get_index;
use crate::tables::symbols_len;
use crate::tables::values_of;
use crate::stream::Reader;
use crate::util::align_up;
use crate::util::cstr_end;
use crate::util::ReadExt;
use crate::util::SeekExt;
use crate::util::checked_align_to;
use crate::util::lemma_align_up;
use crate::util::put_bytes;

verus! {

/// The string table of `names`: one zero byte, then every name in order as
/// UTF-8 with a zero byte behind it.
pub open spec fn name_table(names: Seq<Seq<char>>) -> Seq<u8>
    decreases names.len(),
{
    if names.len() == 0 {
        seq![0u8]
    } else {
        name_table(names.drop_last()) + encode_utf8(names.last()) + seq![0u8]
    }
}

/// Where name `i` starts in the string table of `names`.
pub open spec fn name_offset(names: Seq<Seq<char>>, i: int) -> nat {
    name_table(names.take(i)).len()
}

/// The symbol table of `symbols`: their records in order.
pub open spec fn symbol_table(symbols: Seq<Symbol>, class: Class, endian: Endianness) -> Seq<u8>
    decreases symbols.len(),
{
    if symbols.len() == 0 {
        Seq::empty()
    } else {
        symbol_table(symbols.drop_last(), class, endian) + symbols.last().encoding(class, endian)
    }
}

/// Where the file cursor stands after the first `count` sections were laid
/// out from `start` on: each section is moved up to its alignment and takes
/// as many bytes as its body has.
pub open spec fn layout_end(start: int, aligns: Seq<u64>, sizes: Seq<nat>, count: int) -> int
    decreases count,
{
    if count <= 0 {
        start
    } else {
        align_up(layout_end(start, aligns, sizes, count - 1), aligns[count - 1] as int)
            + sizes[count
            - 1]
    }
}

/// The file offset of section `i` in that layout.
pub open spec fn section_offset(start: int, aligns: Seq<u64>, sizes: Seq<nat>, i: int) -> int {
    align_up(layout_end(start, aligns, sizes, i), aligns[i] as int)
}

/// The characters of every string of `list`.
pub open spec fn views_of(list: Seq<&String>) -> Seq<Seq<char>> {
    Seq::new(list.len(), |i: int| list[i]@)
}

/// The lengths of `list` as natural numbers.
pub open spec fn sizes_of(list: Seq<usize>) -> Seq<nat> {
    Seq::new(list.len(), |i: int| list[i] as nat)
}

/// The layout never moves the cursor backwards.
pub proof fn lemma_layout_grows(
    start: int,
    aligns: Seq<u64>,
    sizes: Seq<nat>,
    from: int,
    to: int,
)
    requires
        0 <= start,
        0 <= from <= to,
    ensures
        start <= layout_end(start, aligns, sizes, from) <= layout_end(start, aligns, sizes, to),
        from < to ==> section_offset(start, aligns, sizes, from) + sizes[from] <= layout_end(
            start,
            aligns,
            sizes,
            to,
        ),
    decreases to,
{
    if to > 0 {
        if from < to {
            lemma_layout_grows(start, aligns, sizes, from, to - 1);
        }
        lemma_layout_grows(start, aligns, sizes, 0, to - 1);
        lemma_align_up(layout_end(start, aligns, sizes, to - 1), aligns[to - 1] as int);
    }
}

/// The symbol table has one record of the class's size for each symbol.
pub proof fn lemma_symbol_table_len(symbols: Seq<Symbol>, class: Class, endian: Endianness)
    ensures
        symbol_table(symbols, class, endian).len() == symbols.len() * Symbol::encoded_len(class),
    decreases symbols.len(),
{
    if symbols.len() > 0 {
        lemma_symbol_table_len(symbols.drop_last(), class, endian);
        crate::util::lemma_field_lengths(endian);
        assert(symbols.last().encoding(class, endian).len() == Symbol::encoded_len(class));
        assert(symbols.len() * Symbol::encoded_len(class) == (symbols.len() - 1)
            * Symbol::encoded_len(class) + Symbol::encoded_len(class)) by (nonlinear_arith);
    }
}

/// The names of the symbols, in table order.
pub fn symbol_name_list(symbols: &IndexMap<String, Symbol>) -> (r: Vec<&String>)
    ensures
        views_of(r@) == names_of(symbol_entries(*symbols)),
{
    let count: usize = symbols_len(symbols);
    let mut names: Vec<&String> = Vec::new();
    let mut i: usize = 0;
    while i < count
        invariant
            i <= count,
            count == symbol_entries(*symbols).len(),
            names@.len() == i,
            forall|k: int| 0 <= k < i ==> (#[trigger] names@[k])@ == symbol_entries(*symbols)[k].0,
        decreases count - i,
    {
        match symbols_get_index(symbols, i) {
            Some((name, _)) => {
                names.push(name);
            },
            None => {},
        }
        i += 1;
    }
    assert(views_of(names@) =~= names_of(symbol_entries(*symbols)));
    names
}

/// The names of the sections, in table order.
pub fn section_name_list(sections: &IndexMap<String, Section>) -> (r: Vec<&String>)
    ensures
        views_of(r@) == names_of(section_entries(*sections)),
{
    let count: usize = sections_len(sections);
    let mut names: Vec<&String> = Vec::new();
    let mut i: usize = 0;
    while i < count
        invariant
            i <= count,
            count == section_entries(*sections).len(),
            names@.len() == i,
            forall|k: int|
                0 <= k < i ==> (#[trigger] names@[k])@ == section_entries(*sections)[k].0,
        decreases count - i,
    {
        match sections_get_index(sections, i) {
            Some((name, _)) => {
                names.push(name);
            },
            None => {},
        }
        i += 1;
    }
    assert(views_of(names@) =~= names_of(section_entries(*sections)));
    names
}

/// Builds the string table of `names`, and with it the offset of every name
/// cut to 32 bits.
pub fn build_name_table(names: &Vec<&String>) -> (r: (Vec<u8>, Vec<u32>))
    ensures
        r.0@ == name_table(views_of(names@)),
        r.1@.len() == names@.len(),
        forall|i: int|
            0 <= i < names@.len() ==> #[trigger] r.1@[i] == name_offset(views_of(names@), i) as u32,
{
    let ghost all = views_of(names@);
    let mut table: Vec<u8> = Vec::new();
    table.push(0u8);
    let mut offsets: Vec<u32> = Vec::new();
    let mut i: usize = 0;
    assert(all.take(0).len() == 0);
    assert(table@ =~= name_table(all.take(0)));
    while i < names.len()
        invariant
            i <= names@.len(),
            all == views_of(names@),
            table@ == name_table(all.take(i as int)),
            offsets@.len() == i,
            forall|k: int| 0 <= k < i ==> #[trigger] offsets@[k] == name_offset(all, k) as u32,
        decreases names@.len() - i,
    {
        proof {
            assert(all.take(i + 1).drop_last() =~= all.take(i as int));
            assert(all.take(i + 1).last() == all[i as int]);
        }
        offsets.push(#[verifier::truncate] (table.len() as u32));
        put_bytes(&mut table, names[i].as_str().as_bytes());
        table.push(0u8);
        i += 1;
        assert(table@ =~= name_table(all.take(i as int)));
    }
    assert(all.take(names@.len() as int) =~= all);
    (table, offsets)
}

/// Builds the symbol table: the record of every symbol, in table order.
pub fn build_symbol_table(symbols: &IndexMap<String, Symbol>, class: &Class, endian: &Endianness)
    -> (raw: Vec<u8>)
    ensures
        raw@ == symbol_table(values_of(symbol_entries(*symbols)), *class, *endian),
{
    let ghost all = values_of(symbol_entries(*symbols));
    let count: usize = symbols_len(symbols);
    let mut raw: Vec<u8> = Vec::new();
    let mut i: usize = 0;
    assert(all.take(0).len() == 0);
    while i < count
        invariant
            i <= count,
            count == symbol_entries(*symbols).len(),
            all == values_of(symbol_entries(*symbols)),
            raw@ == symbol_table(all.take(i as int), *class, *endian),
        decreases count - i,
    {
        proof {
            assert(all.take(i + 1).drop_last() =~= all.take(i as int));
            assert(all.take(i + 1).last() == all[i as int]);
        }
        match symbols_get_index(symbols, i) {
            Some((_, symbol)) => {
                let record = symbol.to_bytes(class, endian);
                put_bytes(&mut raw, record.as_slice());
            },
            None => {},
        }
        i += 1;
    }
    assert(all.take(count as int) =~= all);
    raw
}

/// Lays the sections out from `start` on and returns the offset of each and
/// the place of the section header table, which is the end of the last
/// section moved up to a multiple of 16. It fails where that place does not
/// fit in 64 bits.
fn lay_out_sections(start: u64, aligns: &Vec<u64>, sizes: &Vec<usize>) -> (r: Result<
    (Vec<u64>, u64),
    ElfError,
>)
    requires
        aligns@.len() == sizes@.len(),
    ensures
        match r {
            Ok((offsets, end)) => offsets@.len() == aligns@.len() && (forall|i: int|
                0 <= i < aligns@.len() ==> #[trigger] offsets@[i] == section_offset(
                    start as int,
                    aligns@,
                    sizes_of(sizes@),
                    i,
                )) && end == align_up(
                layout_end(start as int, aligns@, sizes_of(sizes@), aligns@.len() as int),
                16,
            ),
            Err(e) => e == ElfError::OffsetOverflow && align_up(
                layout_end(start as int, aligns@, sizes_of(sizes@), aligns@.len() as int),
                16,
            ) > u64::MAX,
        },
{
    let ghost sz = sizes_of(sizes@);
    let ghost total = layout_end(start as int, aligns@, sz, aligns@.len() as int);
    let count: usize = aligns.len();
    let mut offsets: Vec<u64> = Vec::new();
    let mut pos: u64 = start;
    let mut i: usize = 0;
    proof {
        lemma_layout_grows(start as int, aligns@, sz, 0, count as int);
        lemma_align_up(total, 16);
    }
    while i < count
        invariant
            i <= count,
            count == aligns@.len(),
            count == sizes@.len(),
            sz == sizes_of(sizes@),
            total == layout_end(start as int, aligns@, sz, count as int),
            total <= align_up(total, 16),
            pos == layout_end(start as int, aligns@, sz, i as int),
            offsets@.len() == i,
            forall|k: int|
                0 <= k < i ==> #[trigger] offsets@[k] == section_offset(
                    start as int,
                    aligns@,
                    sz,
                    k,
                ),
        decreases count - i,
    {
        proof {
            lemma_layout_grows(start as int, aligns@, sz, i as int + 1, count as int);
            lemma_layout_grows(start as int, aligns@, sz, i as int, count as int);
        }
        let at: u64 = match checked_align_to(pos, aligns[i]) {
            Some(at) => at,
            None => {
                return Err(ElfError::OffsetOverflow);
            },
        };
        let size: usize = sizes[i];
        if size as u64 > u64::MAX - at {
            return Err(ElfError::OffsetOverflow);
        }
        offsets.push(at);
        pos = at + size as u64;
        i += 1;
    }
    match checked_align_to(pos, 16) {
        Some(end) => Ok((offsets, end)),
        None => Err(ElfError::OffsetOverflow),
    }
}


impl ObjectView {
    /// The names of the sections, in table order.
    pub open spec fn section_names(&self) -> Seq<Seq<char>> {
        names_of(self.sections)
    }

    /// The names of the symbols, in table order.
    pub open spec fn symbol_names(&self) -> Seq<Seq<char>> {
        names_of(self.symbols)
    }

    /// The number of segments, cut to the 16 bits of the header's count.
    pub open spec fn laid_out_phnum(&self) -> u16 {
        self.segments.len() as u16
    }

    /// The body that section `i` has after the layout: the symbol table for
    /// the section that the name `.symtab` finds, the string table of the
    /// symbol names for `.strtab`, that of the section names for
    /// `.shstrtab`, and its own body for every other section.
    pub open spec fn laid_out_body(&self, i: int) -> Seq<u8> {
        if find_name(self.section_names(), ".symtab"@) == Some(i) {
            symbol_table(
                values_of(self.symbols),
                self.header.e_ident.ei_class,
                self.header.e_ident.ei_data,
            )
        } else if find_name(self.section_names(), ".strtab"@) == Some(i) {
            name_table(self.symbol_names())
        } else if find_name(self.section_names(), ".shstrtab"@) == Some(i) {
            name_table(self.section_names())
        } else {
            self.sections[i].1.body
        }
    }

    /// Whether section `i` is one of the three whose body the layout builds.
    pub open spec fn is_built(&self, i: int) -> bool {
        find_name(self.section_names(), ".symtab"@) == Some(i) || find_name(
            self.section_names(),
            ".strtab"@,
        ) == Some(i) || find_name(self.section_names(), ".shstrtab"@) == Some(i)
    }

    /// The alignment of every section, in table order.
    pub open spec fn laid_out_aligns(&self) -> Seq<u64> {
        Seq::new(self.sections.len(), |i: int| self.sections[i].1.header.sh_addralign)
    }

    /// The length that the body of every section has after the layout.
    pub open spec fn laid_out_sizes(&self) -> Seq<nat> {
        Seq::new(self.sections.len(), |i: int| self.laid_out_body(i).len())
    }

    /// Where the first section may start: behind the file header and the
    /// program header table, by the sizes that the header names.
    pub open spec fn laid_out_start(&self) -> int {
        self.header.e_ehsize + self.header.e_phentsize * self.laid_out_phnum()
    }

    /// Where the sections end in the layout.
    pub open spec fn laid_out_end(&self) -> int {
        layout_end(
            self.laid_out_start(),
            self.laid_out_aligns(),
            self.laid_out_sizes(),
            self.sections.len() as int,
        )
    }

    /// By how many bytes the program header table grows over the count that
    /// the header held before the layout; negative where it shrinks.
    pub open spec fn table_growth(&self) -> int {
        self.header.e_phentsize * (self.laid_out_phnum() - self.header.e_phnum)
    }

    /// The header of a segment after the layout. The segment of the program
    /// header table gets the size of that table as its file and memory size;
    /// the segment of the interpreter path moves by the growth of the table;
    /// every other segment stays as it is.
    ///
    /// The move of the interpreter segment is right only where its body
    /// stands directly behind the program header table. This is a known
    /// limit of the layout: no other segment is moved, and a file laid out
    /// otherwise gets an offset that does not lead to its interpreter path.
    pub open spec fn laid_out_segment(&self, h: ProgramHeader) -> ProgramHeader {
        if h.p_type == PT_PHDR {
            ProgramHeader {
                p_filesz: (self.laid_out_phnum() * self.header.e_phentsize) as u64,
                p_memsz: (self.laid_out_phnum() * self.header.e_phentsize) as u64,
                ..h
            }
        } else if h.p_type == PT_INTERP {
            ProgramHeader { p_offset: (h.p_offset + self.table_growth()) as u64, ..h }
        } else {
            h
        }
    }

    /// Whether the layout would move an interpreter segment out of the range
    /// of a file offset.
    pub open spec fn segment_overflows(&self, h: ProgramHeader) -> bool {
        h.p_type == PT_INTERP && !(0 <= h.p_offset + self.table_growth() <= u64::MAX)
    }

    /// The file header after the layout. The offset of the program header
    /// table is the caller's and stays.
    pub open spec fn laid_out_header(&self) -> Header {
        Header {
            e_phnum: self.laid_out_phnum(),
            e_shnum: self.sections.len() as u16,
            e_shstrndx: find_name(self.section_names(), ".shstrtab"@).unwrap() as u16,
            e_shoff: align_up(self.laid_out_end(), 16) as u64,
            ..self.header
        }
    }

    /// The header of section `i` after the layout.
    pub open spec fn laid_out_section_header(&self, i: int) -> SectionHeader {
        let h = self.sections[i].1.header;
        SectionHeader {
            sh_name: name_offset(self.section_names(), i) as u32,
            sh_offset: section_offset(
                self.laid_out_start(),
                self.laid_out_aligns(),
                self.laid_out_sizes(),
                i,
            ) as u64,
            sh_size: if self.is_built(i) {
                self.laid_out_body(i).len() as u64
            } else {
                h.sh_size
            },
            ..h
        }
    }

    /// Symbol `i` after the layout.
    pub open spec fn laid_out_symbol(&self, i: int) -> Symbol {
        Symbol {
            sym_name: name_offset(self.symbol_names(), i) as u32,
            ..self.symbols[i].1
        }
    }

    /// Why the object cannot be laid out, or `None` where it can. The three
    /// sections that the layout builds are looked for first, in the order
    /// `.symtab`, `.strtab`, `.shstrtab`.
    pub open spec fn layout_error(&self) -> Option<ElfError> {
        if find_name(self.section_names(), ".symtab"@) is None {
            Some(ElfError::MissingRequiredSection(".symtab"))
        } else if find_name(self.section_names(), ".strtab"@) is None {
            Some(ElfError::MissingRequiredSection(".strtab"))
        } else if find_name(self.section_names(), ".shstrtab"@) is None {
            Some(ElfError::MissingRequiredSection(".shstrtab"))
        } else if align_up(self.laid_out_end(), 16) > u64::MAX || (exists|i: int|
            0 <= i < self.segments.len() && self.segment_overflows(
                (#[trigger] self.segments[i]).header,
            )) {
            Some(ElfError::OffsetOverflow)
        } else {
            None
        }
    }

    /// What the layout makes of the object.
    pub open spec fn laid_out(&self) -> ObjectView {
        ObjectView {
            header: self.laid_out_header(),
            segments: Seq::new(
                self.segments.len(),
                |i: int| Segment { header: self.laid_out_segment(self.segments[i].header) },
            ),
            sections: Seq::new(
                self.sections.len(),
                |i: int|
                    (
                        self.sections[i].0,
                        SectionView {
                            header: self.laid_out_section_header(i),
                            body: self.laid_out_body(i),
                        },
                    ),
            ),
            symbols: Seq::new(
                self.symbols.len(),
                |i: int| (self.symbols[i].0, self.laid_out_symbol(i)),
            ),
            shstrtab: self.shstrtab,
            strtab: self.strtab,
        }
    }
}

/// Gives every section its name offset and its file offset.
fn place_sections(
    sections: &mut IndexMap<String, Section>,
    name_offsets: &Vec<u32>,
    offsets: &Vec<u64>,
)
    requires
        name_offsets@.len() == section_entries(*old(sections)).len(),
        offsets@.len() == section_entries(*old(sections)).len(),
    ensures
        section_entries(*final(sections)).len() == section_entries(*old(sections)).len(),
        forall|i: int|
            0 <= i < section_entries(*old(sections)).len() ==> {
                &&& (#[trigger] section_entries(*final(sections))[i]).0 == section_entries(
                    *old(sections),
                )[i].0
                &&& section_entries(*final(sections))[i].1.body == section_entries(
                    *old(sections),
                )[i].1.body
                &&& section_entries(*final(sections))[i].1.header == (SectionHeader {
                    sh_name: name_offsets@[i],
                    sh_offset: offsets@[i],
                    ..section_entries(*old(sections))[i].1.header
                })
            },
{
    let ghost before = section_entries(*sections);
    let count: usize = sections_len(sections);
    let mut i: usize = 0;
    while i < count
        invariant
            i <= count,
            count == before.len(),
            name_offsets@.len() == count,
            offsets@.len() == count,
            section_entries(*sections).len() == count,
            forall|k: int| i <= k < count ==> #[trigger] section_entries(*sections)[k] == before[k],
            forall|k: int|
                0 <= k < i ==> {
                    &&& (#[trigger] section_entries(*sections)[k]).0 == before[k].0
                    &&& section_entries(*sections)[k].1.body == before[k].1.body
                    &&& section_entries(*sections)[k].1.header == (SectionHeader {
                        sh_name: name_offsets@[k],
                        sh_offset: offsets@[k],
                        ..before[k].1.header
                    })
                },
        decreases count - i,
    {
        match sections_get_index_mut(sections, i) {
            Some(section) => {
                section.header.sh_name = name_offsets[i];
                section.header.sh_offset = offsets[i];
            },
            None => {},
        }
        i += 1;
    }
}

/// Puts `body` into the section at `index` and its length into the size of
/// that section.
fn replace_body(sections: &mut IndexMap<String, Section>, index: usize, body: Vec<u8>)
    requires
        index < section_entries(*old(sections)).len(),
    ensures
        section_entries(*final(sections)).len() == section_entries(*old(sections)).len(),
        forall|i: int|
            0 <= i < section_entries(*old(sections)).len() && i != index
                ==> #[trigger] section_entries(*final(sections))[i] == section_entries(
                *old(sections),
            )[i],
        section_entries(*final(sections))[index as int].0 == section_entries(
            *old(sections),
        )[index as int].0,
        section_entries(*final(sections))[index as int].1.body@ == body@,
        section_entries(*final(sections))[index as int].1.header == (SectionHeader {
            sh_size: body@.len() as u64,
            ..section_entries(*old(sections))[index as int].1.header
        }),
{
    match sections_get_index_mut(sections, index) {
        Some(section) => {
            section.header.sh_size = body.len() as u64;
            section.body = body;
        },
        None => {},
    }
}

/// Gives every symbol its name offset.
fn name_symbols(symbols: &mut IndexMap<String, Symbol>, offsets: &Vec<u32>)
    requires
        offsets@.len() == symbol_entries(*old(symbols)).len(),
    ensures
        symbol_entries(*final(symbols)).len() == symbol_entries(*old(symbols)).len(),
        forall|i: int|
            0 <= i < symbol_entries(*old(symbols)).len() ==> {
                &&& (#[trigger] symbol_entries(*final(symbols))[i]).0 == symbol_entries(
                    *old(symbols),
                )[i].0
                &&& symbol_entries(*final(symbols))[i].1 == (Symbol {
                    sym_name: offsets@[i],
                    ..symbol_entries(*old(symbols))[i].1
                })
            },
{
    let ghost before = symbol_entries(*symbols);
    let count: usize = symbols_len(symbols);
    let mut i: usize = 0;
    while i < count
        invariant
            i <= count,
            count == before.len(),
            offsets@.len() == count,
            symbol_entries(*symbols).len() == count,
            forall|k: int| i <= k < count ==> #[trigger] symbol_entries(*symbols)[k] == before[k],
            forall|k: int|
                0 <= k < i ==> {
                    &&& (#[trigger] symbol_entries(*symbols)[k]).0 == before[k].0
                    &&& symbol_entries(*symbols)[k].1 == (Symbol {
                        sym_name: offsets@[k],
                        ..before[k].1
                    })
                },
        decreases count - i,
    {
        match symbols_get_index_mut(symbols, i) {
            Some(symbol) => {
                symbol.sym_name = offsets[i];
            },
            None => {},
        }
        i += 1;
    }
}

impl Object {
    /// The alignment of every section and the length that its body has after
    /// the layout, given the places and the lengths of the three bodies that
    /// the layout builds.
    fn layout_inputs(
        &self,
        symtab_idx: usize,
        strtab_idx: usize,
        shstrtab_idx: usize,
        symtab_len: usize,
        strtab_len: usize,
        shstrtab_len: usize,
    ) -> (r: (Vec<u64>, Vec<usize>))
        requires
            find_name(self@.section_names(), ".symtab"@) == Some(symtab_idx as int),
            find_name(self@.section_names(), ".strtab"@) == Some(strtab_idx as int),
            find_name(self@.section_names(), ".shstrtab"@) == Some(shstrtab_idx as int),
            symtab_len == symbol_table(
                values_of(self@.symbols),
                self.header.e_ident.ei_class,
                self.header.e_ident.ei_data,
            ).len(),
            strtab_len == name_table(self@.symbol_names()).len(),
            shstrtab_len == name_table(self@.section_names()).len(),
        ensures
            r.0@ == self@.laid_out_aligns(),
            sizes_of(r.1@) == self@.laid_out_sizes(),
            r.0@.len() == self.section_list().len(),
            r.1@.len() == self.section_list().len(),
    {
        let count: usize = sections_len(&self.sections);
        let mut aligns: Vec<u64> = Vec::new();
        let mut sizes: Vec<usize> = Vec::new();
        let mut i: usize = 0;
        while i < count
            invariant
                i <= count,
                count == self.section_list().len(),
                find_name(self@.section_names(), ".symtab"@) == Some(symtab_idx as int),
                find_name(self@.section_names(), ".strtab"@) == Some(strtab_idx as int),
                find_name(self@.section_names(), ".shstrtab"@) == Some(shstrtab_idx as int),
                symtab_len == symbol_table(
                    values_of(self@.symbols),
                    self.header.e_ident.ei_class,
                    self.header.e_ident.ei_data,
                ).len(),
                strtab_len == name_table(self@.symbol_names()).len(),
                shstrtab_len == name_table(self@.section_names()).len(),
                aligns@.len() == i,
                sizes@.len() == i,
                forall|k: int| 0 <= k < i ==> #[trigger] aligns@[k] == self@.laid_out_aligns()[k],
                forall|k: int|
                    0 <= k < i ==> (#[trigger] sizes@[k]) as nat == self@.laid_out_sizes()[k],
            decreases count - i,
        {
            match sections_get_index(&self.sections, i) {
                Some((_, section)) => {
                    aligns.push(section.header.sh_addralign);
                    if i == symtab_idx {
                        sizes.push(symtab_len);
                    } else if i == strtab_idx {
                        sizes.push(strtab_len);
                    } else if i == shstrtab_idx {
                        sizes.push(shstrtab_len);
                    } else {
                        sizes.push(section.body.len());
                    }
                },
                None => {},
            }
            i += 1;
        }
        assert(aligns@ =~= self@.laid_out_aligns());
        assert(sizes_of(sizes@) =~= self@.laid_out_sizes());
        (aligns, sizes)
    }

    /// The segments after the layout, or the overflow error where an
    /// interpreter segment would leave the range of a file offset.
    fn lay_out_segments(&self) -> (r: Result<Vec<Segment>, ElfError>)
        ensures
            match r {
                Ok(v) => v@.len() == self.segments@.len() && (forall|i: int|
                    0 <= i < v@.len() ==> (#[trigger] v@[i]).header == self@.laid_out_segment(
                        self.segments@[i].header,
                    )) && (forall|i: int|
                    0 <= i < v@.len() ==> !self@.segment_overflows(
                        (#[trigger] self.segments@[i]).header,
                    )),
                Err(e) => e == ElfError::OffsetOverflow && (exists|i: int|
                    0 <= i < self.segments@.len() && self@.segment_overflows(
                        (#[trigger] self.segments@[i]).header,
                    )),
            },
    {
        let phnum: u16 = #[verifier::truncate] (self.segments.len() as u16);
        let entsize: u16 = self.header.e_phentsize;
        let before: u16 = self.header.e_phnum;
        assert(0 <= phnum * entsize <= 0xffff * 0xffff) by (nonlinear_arith)
            requires
                0 <= phnum <= 0xffff,
                0 <= entsize <= 0xffff,
        ;
        let table_size: u64 = phnum as u64 * entsize as u64;
        let grows: bool = phnum >= before;
        let change: u64 = if grows {
            assert(0 <= entsize * (phnum - before) <= 0xffff * 0xffff) by (nonlinear_arith)
                requires
                    0 <= phnum - before <= 0xffff,
                    0 <= entsize <= 0xffff,
            ;
            entsize as u64 * (phnum - before) as u64
        } else {
            assert(0 <= entsize * (before - phnum) <= 0xffff * 0xffff) by (nonlinear_arith)
                requires
                    0 <= before - phnum <= 0xffff,
                    0 <= entsize <= 0xffff,
            ;
            entsize as u64 * (before - phnum) as u64
        };
        assert(self@.table_growth() == if grows {
            change as int
        } else {
            -(change as int)
        }) by (nonlinear_arith)
            requires
                self@.table_growth() == entsize * (phnum - before),
                grows ==> change == entsize * (phnum - before),
                !grows ==> change == entsize * (before - phnum),
        ;
        let mut out: Vec<Segment> = Vec::new();
        let mut i: usize = 0;
        while i < self.segments.len()
            invariant
                i <= self.segments@.len(),
                phnum == self@.laid_out_phnum(),
                entsize == self.header.e_phentsize,
                table_size == phnum * entsize,
                self@.table_growth() == if grows {
                    change as int
                } else {
                    -(change as int)
                },
                out@.len() == i,
                forall|k: int|
                    0 <= k < i ==> (#[trigger] out@[k]).header == self@.laid_out_segment(
                        self.segments@[k].header,
                    ),
                forall|k: int|
                    0 <= k < i ==> !self@.segment_overflows((#[trigger] self.segments@[k]).header),
            decreases self.segments@.len() - i,
        {
            let mut h: ProgramHeader = self.segments[i].header;
            if h.p_type == PT_PHDR {
                h.p_filesz = table_size;
                h.p_memsz = table_size;
            } else if h.p_type == PT_INTERP {
                if grows {
                    if change > u64::MAX - h.p_offset {
                        return Err(ElfError::OffsetOverflow);
                    }
                    h.p_offset = h.p_offset + change;
                } else {
                    if change > h.p_offset {
                        return Err(ElfError::OffsetOverflow);
                    }
                    h.p_offset = h.p_offset - change;
                }
            }
            out.push(Segment::new(h));
            i += 1;
        }
        Ok(out)
    }

    /// Resolves internal references and offsets: brings the object into the
    /// state in which it can be written.
    ///
    /// The count of program headers follows the segments. The bodies of
    /// `.symtab`, `.strtab` and `.shstrtab` are built anew, the symbol table
    /// with the name offsets that the symbols held on entry. Every symbol and
    /// every section gets its name offset, every section its file offset,
    /// and the header the count of sections, the index of `.shstrtab` and the
    /// place of the section header table. Counts and name offsets are cut to
    /// the width of their fields. Where the layout fails the object stays as
    /// it was.
    pub fn update(&mut self) -> (r: Result<(), ElfError>)
        ensures
            match r {
                Ok(_) => old(self)@.layout_error() is None && final(self)@ == old(self)@.laid_out(),
                Err(e) => old(self)@.layout_error() == Some(e) && *final(self) == *old(self),
            },
    {
        proof {
            self.lemma_view_names();
        }
        let symtab_idx: usize = match sections_get_index_of(&self.sections, ".symtab") {
            Some(i) => i,
            None => {
                return Err(ElfError::MissingRequiredSection(".symtab"));
            },
        };
        let strtab_idx: usize = match sections_get_index_of(&self.sections, ".strtab") {
            Some(i) => i,
            None => {
                return Err(ElfError::MissingRequiredSection(".strtab"));
            },
        };
        let shstrtab_idx: usize = match sections_get_index_of(&self.sections, ".shstrtab") {
            Some(i) => i,
            None => {
                return Err(ElfError::MissingRequiredSection(".shstrtab"));
            },
        };
        proof {
            lemma_find_name(self@.section_names(), ".symtab"@);
            lemma_find_name(self@.section_names(), ".strtab"@);
            lemma_find_name(self@.section_names(), ".shstrtab"@);
            lemma_built_names_differ();
        }
        let class = self.header.e_ident.ei_class;
        let endian = self.header.e_ident.ei_data;
        let symtab_data = build_symbol_table(&self.symbols, &class, &endian);
        let (strtab_data, symbol_offsets) = build_name_table(&symbol_name_list(&self.symbols));
        let (shstrtab_data, section_name_offsets) = build_name_table(
            &section_name_list(&self.sections),
        );
        let (aligns, sizes) = self.layout_inputs(
            symtab_idx,
            strtab_idx,
            shstrtab_idx,
            symtab_data.len(),
            strtab_data.len(),
            shstrtab_data.len(),
        );
        let phnum: u16 = #[verifier::truncate] (self.segments.len() as u16);
        assert(0 <= self.header.e_phentsize * phnum <= 0xffff * 0xffff) by (nonlinear_arith)
            requires
                0 <= phnum <= 0xffff,
                0 <= self.header.e_phentsize <= 0xffff,
        ;
        let start: u64 = self.header.e_ehsize as u64 + (self.header.e_phentsize as u64
            * phnum as u64);
        let (offsets, shoff) = match lay_out_sections(start, &aligns, &sizes) {
            Ok(layout) => layout,
            Err(e) => {
                return Err(e);
            },
        };
        let segments = match self.lay_out_segments() {
            Ok(segments) => segments,
            Err(e) => {
                return Err(e);
            },
        };
        let ghost pre = self@;
        self.header.e_phnum = phnum;
        self.header.e_shstrndx = #[verifier::truncate] (shstrtab_idx as u16);
        self.header.e_shnum = #[verifier::truncate] (sections_len(&self.sections) as u16);
        self.header.e_shoff = shoff;
        place_sections(&mut self.sections, &section_name_offsets, &offsets);
        replace_body(&mut self.sections, symtab_idx, symtab_data);
        replace_body(&mut self.sections, strtab_idx, strtab_data);
        replace_body(&mut self.sections, shstrtab_idx, shstrtab_data);
        name_symbols(&mut self.symbols, &symbol_offsets);
        self.segments = segments;
        proof {
            let post = pre.laid_out();
            lemma_layout_grows(
                pre.laid_out_start(),
                pre.laid_out_aligns(),
                pre.laid_out_sizes(),
                0,
                pre.sections.len() as int,
            );
            assert forall|i: int| 0 <= i < pre.sections.len() implies #[trigger] self@.sections[i]
                == post.sections[i] by {
                lemma_layout_grows(
                    pre.laid_out_start(),
                    pre.laid_out_aligns(),
                    pre.laid_out_sizes(),
                    i,
                    pre.sections.len() as int,
                );
            }
            assert(self@.sections =~= post.sections);
            assert(self@.symbols =~= post.symbols);
            assert(self@.segments =~= post.segments);
            assert(self@ =~= post);
        }
        Ok(())
    }

    /// The names in the view of the object are the names of its entries.
    pub proof fn lemma_view_names(&self)
        ensures
            self@.section_names() == names_of(section_entries(self.sections)),
            self@.symbol_names() == names_of(symbol_entries(self.symbols)),
            self@.sections.len() == section_entries(self.sections).len(),
    {
        assert(self@.section_names() =~= names_of(section_entries(self.sections)));
        assert(self@.symbol_names() =~= names_of(symbol_entries(self.symbols)));
    }
}

/// The names of the three sections that the layout builds differ from each
/// other.
pub proof fn lemma_built_names_differ()
    ensures
        ".symtab"@ != ".strtab"@,
        ".symtab"@ != ".shstrtab"@,
        ".strtab"@ != ".shstrtab"@,
{
    reveal_strlit(".symtab");
    reveal_strlit(".strtab");
    reveal_strlit(".shstrtab");
    assert(".symtab"@[2] != ".strtab"@[2]);
    assert(".symtab"@.len() != ".shstrtab"@.len());
    assert(".strtab"@.len() != ".shstrtab"@.len());
}


/// The name that stands at `offset` in a string table: the characters that
/// the bytes from `offset` up to the next zero byte encode. An offset at or
/// behind the end of the table is out of bounds; a name without a zero byte
/// behind it is truncated.
pub open spec fn resolved_name(table: Seq<u8>, offset: int) -> Result<Seq<char>, ElfError> {
    if offset >= table.len() {
        Err(ElfError::NameTableOutOfBounds)
    } else if cstr_end(table, offset) >= table.len() {
        Err(ElfError::TruncatedInput)
    } else if !valid_utf8(table.subrange(offset, cstr_end(table, offset))) {
        Err(ElfError::DecodeError)
    } else {
        Ok(decode_utf8(table.subrange(offset, cstr_end(table, offset))))
    }
}

/// Reads the name that stands at `offset` in a string table.
pub fn resolve_name(table: &[u8], offset: u32) -> (r: Result<String, ElfError>)
    ensures
        match r {
            Ok(name) => resolved_name(table@, offset as int) == Ok::<Seq<char>, ElfError>(name@),
            Err(e) => resolved_name(table@, offset as int) == Err::<Seq<char>, ElfError>(e),
        },
{
    if offset as usize >= table.len() {
        return Err(ElfError::NameTableOutOfBounds);
    }
    let mut reader = Reader::new(table);
    reader.seek(offset as u64);
    reader.read_cstr()
}

} // verus!
