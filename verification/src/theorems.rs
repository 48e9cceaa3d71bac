use vstd::prelude::*;
use vstd::utf8::decode_utf8;
use vstd::utf8::encode_utf8;
use vstd::utf8::valid_utf8;
use crate::error::ElfError;
use crate::layout::layout_end;
use crate::layout::lemma_layout_grows;
use crate::layout::lemma_symbol_table_len;
use crate::layout::name_offset;
use crate::layout::name_table;
use crate::layout::resolved_name;
use crate::layout::symbol_table;
use crate::object::ObjectView;
use crate::segment::ptype::PT_INTERP;
use crate::segment::ptype::PT_PHDR;
use crate::tables::find_name;
use crate::tables::lemma_find_name;
use crate::tables::values_of;
use crate::util::cstr_end;
use crate::util::lemma_align_up;

verus! {

/// The string table of the first names is the start of the string table of
/// all names.
pub proof fn lemma_name_table_prefix(names: Seq<Seq<char>>, count: int)
    requires
        0 <= count <= names.len(),
    ensures
        name_table(names.take(count)).len() <= name_table(names).len(),
        name_table(names).take(name_table(names.take(count)).len() as int) == name_table(
            names.take(count),
        ),
        name_table(names).len() >= 1,
        name_table(names)[0] == 0,
    decreases names.len(),
{
    if names.len() == 0 {
        assert(names.take(count) =~= names);
    } else if count == names.len() {
        assert(names.take(count) =~= names);
        assert(name_table(names).take(name_table(names).len() as int) =~= name_table(names));
        lemma_name_table_prefix(names.drop_last(), 0);
    } else {
        let front = names.drop_last();
        lemma_name_table_prefix(front, count);
        assert(front.take(count) =~= names.take(count));
        let part = name_table(names.take(count));
        assert(name_table(names).take(part.len() as int) =~= name_table(front).take(
            part.len() as int,
        ));
    }
}

/// In a string table every name stands at its offset with a zero byte
/// behind it, the offsets grow along the table, and the byte at offset zero
/// is zero.
pub proof fn lemma_name_table_entry(names: Seq<Seq<char>>, i: int)
    requires
        0 <= i < names.len(),
    ensures
        name_table(names)[0] == 0,
        1 <= name_offset(names, i),
        name_offset(names, i) + encode_utf8(names[i]).len() < name_table(names).len(),
        name_table(names).subrange(
            name_offset(names, i) as int,
            (name_offset(names, i) + encode_utf8(names[i]).len()) as int,
        ) == encode_utf8(names[i]),
        name_table(names)[(name_offset(names, i) + encode_utf8(names[i]).len()) as int] == 0,
        forall|j: int| 0 <= j < i ==> name_offset(names, j) < name_offset(names, i),
{
    let off = name_offset(names, i) as int;
    let len = encode_utf8(names[i]).len() as int;
    let upto = names.take(i + 1);
    assert(upto.drop_last() =~= names.take(i));
    assert(upto.last() == names[i]);
    lemma_name_table_prefix(names, i + 1);
    lemma_name_table_prefix(names, i);
    lemma_name_table_prefix(names.take(i), 0);
    let whole = name_table(names);
    let part = name_table(upto);
    assert(part == name_table(names.take(i)) + encode_utf8(names[i]) + seq![0u8]);
    assert(whole.take(part.len() as int) == part);
    assert forall|k: int| 0 <= k < part.len() implies whole[k] == part[k] by {
        assert(whole.take(part.len() as int)[k] == whole[k]);
    }
    assert(whole.subrange(off, off + len) =~= encode_utf8(names[i]));
    assert(whole[off + len] == part[off + len]);
    assert forall|j: int| 0 <= j < i implies name_offset(names, j) < name_offset(names, i) by {
        let first = names.take(i);
        assert(first.take(j + 1) =~= names.take(j + 1));
        assert(names.take(j + 1).drop_last() =~= names.take(j));
        lemma_name_table_prefix(first, j + 1);
    }
}

/// A string that holds no zero byte and has one behind it ends at that byte.
pub proof fn lemma_cstr_end(bytes: Seq<u8>, start: int, end: int)
    requires
        0 <= start <= end < bytes.len(),
        bytes[end] == 0,
        forall|k: int| start <= k < end ==> bytes[k] != 0,
    ensures
        cstr_end(bytes, start) == end,
    decreases end - start,
{
    if start < end {
        lemma_cstr_end(bytes, start + 1, end);
    }
}

/// A name without a zero byte is read back from its offset in the string
/// table, and the empty name from offset zero.
pub proof fn lemma_name_resolves(names: Seq<Seq<char>>, i: int)
    requires
        0 <= i < names.len(),
        !encode_utf8(names[i]).contains(0u8),
    ensures
        resolved_name(name_table(names), name_offset(names, i) as int) == Ok::<
            Seq<char>,
            ElfError,
        >(names[i]),
        resolved_name(name_table(names), 0) == Ok::<Seq<char>, ElfError>(Seq::empty()),
{
    broadcast use vstd::utf8::encode_utf8_valid_utf8, vstd::utf8::encode_utf8_decode_utf8;

    lemma_name_table_entry(names, i);
    let table = name_table(names);
    let off = name_offset(names, i) as int;
    let bytes = encode_utf8(names[i]);
    assert forall|k: int| off <= k < off + bytes.len() implies table[k] != 0 by {
        assert(table.subrange(off, off + bytes.len())[k - off] == table[k]);
        assert(bytes.contains(bytes[k - off]));
    }
    lemma_cstr_end(table, off, off + bytes.len());
    lemma_cstr_end(table, 0, 0);
    assert(table.subrange(0, 0) =~= Seq::<u8>::empty());
    assert(encode_utf8(Seq::<char>::empty()) =~= Seq::<u8>::empty());
    assert(valid_utf8(encode_utf8(Seq::<char>::empty())));
    assert(decode_utf8(encode_utf8(Seq::<char>::empty())) == Seq::<char>::empty());
}

impl ObjectView {
    /// After the layout every section starts at a multiple of its alignment,
    /// at or behind the end of the program header table; no section starts
    /// before the end of one that stands before it in the table; and the
    /// section header table starts at a multiple of 16 behind the last
    /// section.
    pub proof fn lemma_laid_out_offsets(self, i: int, j: int)
        requires
            self.layout_error() is None,
            0 <= i <= j < self.sections.len(),
        ensures
            self.laid_out().sections[i].1.header.sh_addralign != 0
                ==> self.laid_out().sections[i].1.header.sh_offset
                % self.laid_out().sections[i].1.header.sh_addralign == 0,
            self.laid_out_start() <= self.laid_out().sections[i].1.header.sh_offset,
            i < j ==> self.laid_out().sections[i].1.header.sh_offset
                + self.laid_out().sections[i].1.body.len()
                <= self.laid_out().sections[j].1.header.sh_offset,
            self.laid_out().sections[j].1.header.sh_offset
                + self.laid_out().sections[j].1.body.len() <= self.laid_out().header.e_shoff,
            self.laid_out().header.e_shoff % 16 == 0,
    {
        let start = self.laid_out_start();
        let aligns = self.laid_out_aligns();
        let sizes = self.laid_out_sizes();
        let count = self.sections.len() as int;
        assert(0 <= start) by (nonlinear_arith)
            requires
                start == self.header.e_ehsize + self.header.e_phentsize * self.laid_out_phnum(),
        ;
        lemma_layout_grows(start, aligns, sizes, 0, i);
        lemma_layout_grows(start, aligns, sizes, 0, j);
        lemma_layout_grows(start, aligns, sizes, i, j);
        lemma_layout_grows(start, aligns, sizes, i, count);
        lemma_layout_grows(start, aligns, sizes, j, count);
        lemma_layout_grows(start, aligns, sizes, 0, count);
        lemma_align_up(layout_end(start, aligns, sizes, i), aligns[i] as int);
        lemma_align_up(layout_end(start, aligns, sizes, j), aligns[j] as int);
        lemma_align_up(layout_end(start, aligns, sizes, count), 16);
    }

    /// After the layout the segment of the program header table has the size
    /// of that table as its file size and its memory size, and a segment of
    /// the interpreter path has moved by the growth of the table: by exactly
    /// one entry where one segment was added.
    pub proof fn lemma_laid_out_segments(self, i: int)
        requires
            self.layout_error() is None,
            0 <= i < self.segments.len(),
        ensures
            self.laid_out().segments.len() == self.segments.len(),
            self.segments[i].header.p_type == PT_PHDR
                ==> self.laid_out().segments[i].header.p_filesz
                == self.laid_out().header.e_phnum * self.laid_out().header.e_phentsize
                && self.laid_out().segments[i].header.p_memsz == self.laid_out().header.e_phnum
                * self.laid_out().header.e_phentsize,
            self.segments[i].header.p_type == PT_INTERP
                ==> self.laid_out().segments[i].header.p_offset
                == self.segments[i].header.p_offset + self.header.e_phentsize * (
            self.laid_out().header.e_phnum - self.header.e_phnum),
            self.segments[i].header.p_type == PT_INTERP && self.segments.len()
                == self.header.e_phnum + 1 && self.segments.len() <= u16::MAX
                ==> self.laid_out().segments[i].header.p_offset
                == self.segments[i].header.p_offset + self.header.e_phentsize,
    {
        let phnum = self.laid_out_phnum();
        let entsize = self.header.e_phentsize;
        assert(0 <= phnum * entsize <= 0xffff * 0xffff) by (nonlinear_arith)
            requires
                0 <= phnum <= 0xffff,
                0 <= entsize <= 0xffff,
        ;
        assert(self.segments[i].header == self.segments[i].header);
        if self.segments.len() == self.header.e_phnum + 1 && self.segments.len() <= u16::MAX {
            assert(entsize * (phnum - self.header.e_phnum) == entsize) by (nonlinear_arith)
                requires
                    phnum - self.header.e_phnum == 1,
            ;
        }
    }
}


impl ObjectView {
    /// The layout keeps the names, and gives `.strtab` and `.shstrtab` the
    /// string tables of the symbol names and of the section names.
    pub proof fn lemma_laid_out_tables(self)
        requires
            self.layout_error() is None,
        ensures
            self.laid_out().section_names() == self.section_names(),
            self.laid_out().symbol_names() == self.symbol_names(),
            find_name(self.section_names(), ".symtab"@) is Some,
            find_name(self.section_names(), ".strtab"@) is Some,
            find_name(self.section_names(), ".shstrtab"@) is Some,
            self.laid_out().sections[find_name(self.section_names(), ".symtab"@).unwrap()].1.body
                == symbol_table(
                values_of(self.symbols),
                self.header.e_ident.ei_class,
                self.header.e_ident.ei_data,
            ),
            self.laid_out().sections[find_name(self.section_names(), ".strtab"@).unwrap()].1.body
                == name_table(self.symbol_names()),
            self.laid_out().sections[find_name(
                self.section_names(),
                ".shstrtab"@,
            ).unwrap()].1.body == name_table(self.section_names()),
    {
        assert(self.laid_out().section_names() =~= self.section_names());
        assert(self.laid_out().symbol_names() =~= self.symbol_names());
        lemma_find_name(self.section_names(), ".symtab"@);
        lemma_find_name(self.section_names(), ".strtab"@);
        lemma_find_name(self.section_names(), ".shstrtab"@);
        crate::layout::lemma_built_names_differ();
    }

    /// After the layout the name offset of every section leads to the name
    /// of that section in the body of `.shstrtab`, as long as the name holds
    /// no zero byte and the table is no longer than a name offset can reach.
    pub proof fn lemma_laid_out_section_name(self, i: int)
        requires
            self.layout_error() is None,
            0 <= i < self.sections.len(),
            name_table(self.section_names()).len() <= u32::MAX,
            !encode_utf8(self.sections[i].0).contains(0u8),
        ensures
            find_name(self.laid_out().section_names(), ".shstrtab"@) is Some,
            resolved_name(
                self.laid_out().sections[find_name(
                    self.laid_out().section_names(),
                    ".shstrtab"@,
                ).unwrap()].1.body,
                self.laid_out().sections[i].1.header.sh_name as int,
            ) == Ok::<Seq<char>, ElfError>(self.laid_out().sections[i].0),
            resolved_name(
                self.laid_out().sections[find_name(
                    self.laid_out().section_names(),
                    ".shstrtab"@,
                ).unwrap()].1.body,
                0,
            ) == Ok::<Seq<char>, ElfError>(Seq::empty()),
            forall|j: int|
                0 <= j < i ==> self.laid_out().sections[j].1.header.sh_name
                    < self.laid_out().sections[i].1.header.sh_name,
    {
        self.lemma_laid_out_tables();
        lemma_name_table_entry(self.section_names(), i);
        lemma_name_resolves(self.section_names(), i);
        assert forall|j: int| 0 <= j < i implies self.laid_out().sections[j].1.header.sh_name
            < self.laid_out().sections[i].1.header.sh_name by {
            lemma_name_table_entry(self.section_names(), j);
        }
    }

    /// After the layout the name offset of every symbol leads to the name of
    /// that symbol in the body of `.strtab`, as long as the name holds no
    /// zero byte and the table is no longer than a name offset can reach.
    pub proof fn lemma_laid_out_symbol_name(self, i: int)
        requires
            self.layout_error() is None,
            0 <= i < self.symbols.len(),
            name_table(self.symbol_names()).len() <= u32::MAX,
            !encode_utf8(self.symbols[i].0).contains(0u8),
        ensures
            find_name(self.laid_out().section_names(), ".strtab"@) is Some,
            resolved_name(
                self.laid_out().sections[find_name(
                    self.laid_out().section_names(),
                    ".strtab"@,
                ).unwrap()].1.body,
                self.laid_out().symbols[i].1.sym_name as int,
            ) == Ok::<Seq<char>, ElfError>(self.laid_out().symbols[i].0),
            resolved_name(
                self.laid_out().sections[find_name(
                    self.laid_out().section_names(),
                    ".strtab"@,
                ).unwrap()].1.body,
                0,
            ) == Ok::<Seq<char>, ElfError>(Seq::empty()),
            forall|j: int|
                0 <= j < i ==> self.laid_out().symbols[j].1.sym_name
                    < self.laid_out().symbols[i].1.sym_name,
    {
        self.lemma_laid_out_tables();
        lemma_name_table_entry(self.symbol_names(), i);
        lemma_name_resolves(self.symbol_names(), i);
        assert forall|j: int| 0 <= j < i implies self.laid_out().symbols[j].1.sym_name
            < self.laid_out().symbols[i].1.sym_name by {
            lemma_name_table_entry(self.symbol_names(), j);
        }
    }

    /// A second layout changes nothing but the body of `.symtab`, which then
    /// holds the name offsets that the first layout gave the symbols: the
    /// header with its counts and offsets, the segments, the symbols, the
    /// headers of all sections and the two string tables stay as they are.
    pub proof fn lemma_layout_idempotent(self)
        requires
            self.layout_error() is None,
        ensures
            self.laid_out().layout_error() is None,
            self.laid_out().laid_out().header == self.laid_out().header,
            self.laid_out().laid_out().segments == self.laid_out().segments,
            self.laid_out().laid_out().symbols == self.laid_out().symbols,
            self.laid_out().laid_out().shstrtab == self.laid_out().shstrtab,
            self.laid_out().laid_out().strtab == self.laid_out().strtab,
            self.laid_out().laid_out().sections.len() == self.laid_out().sections.len(),
            forall|i: int|
                0 <= i < self.sections.len() ==> {
                    &&& (#[trigger] self.laid_out().laid_out().sections[i]).0
                        == self.laid_out().sections[i].0
                    &&& self.laid_out().laid_out().sections[i].1.header
                        == self.laid_out().sections[i].1.header
                    &&& self.laid_out().laid_out().sections[i].1.body.len()
                        == self.laid_out().sections[i].1.body.len()
                    &&& find_name(self.section_names(), ".symtab"@) != Some(i)
                        ==> self.laid_out().laid_out().sections[i].1.body
                        == self.laid_out().sections[i].1.body
                },
    {
        let once = self.laid_out();
        let twice = once.laid_out();
        let class = self.header.e_ident.ei_class;
        let endian = self.header.e_ident.ei_data;
        self.lemma_laid_out_tables();
        assert(values_of(once.symbols).len() == values_of(self.symbols).len());
        lemma_symbol_table_len(values_of(self.symbols), class, endian);
        lemma_symbol_table_len(values_of(once.symbols), class, endian);
        assert(once.laid_out_phnum() == self.laid_out_phnum());
        assert(once.header.e_phnum == once.laid_out_phnum());
        assert(once.table_growth() == 0) by (nonlinear_arith)
            requires
                once.table_growth() == once.header.e_phentsize * (once.laid_out_phnum()
                    - once.header.e_phnum),
                once.header.e_phnum == once.laid_out_phnum(),
        ;
        assert forall|i: int| 0 <= i < self.sections.len() implies once.laid_out_body(i).len()
            == self.laid_out_body(i).len() && (find_name(self.section_names(), ".symtab"@)
            != Some(i) ==> once.laid_out_body(i) == self.laid_out_body(i)) && once.is_built(i)
            == self.is_built(i) by {}
        assert(once.laid_out_sizes() =~= self.laid_out_sizes());
        assert(once.laid_out_aligns() =~= self.laid_out_aligns());
        assert(once.laid_out_start() == self.laid_out_start());
        assert(once.laid_out_end() == self.laid_out_end());
        assert(0 <= self.laid_out_start()) by (nonlinear_arith)
            requires
                self.laid_out_start() == self.header.e_ehsize + self.header.e_phentsize
                    * self.laid_out_phnum(),
        ;
        lemma_layout_grows(
            self.laid_out_start(),
            self.laid_out_aligns(),
            self.laid_out_sizes(),
            0,
            self.sections.len() as int,
        );
        lemma_align_up(self.laid_out_end(), 16);
        assert(twice.header == once.header);
        assert(twice.segments =~= once.segments);
        assert(twice.symbols =~= once.symbols);
        assert forall|i: int| 0 <= i < self.sections.len() implies {
            &&& (#[trigger] twice.sections[i]).0 == once.sections[i].0
            &&& twice.sections[i].1.header == once.sections[i].1.header
            &&& twice.sections[i].1.body.len() == once.sections[i].1.body.len()
            &&& find_name(self.section_names(), ".symtab"@) != Some(i) ==> twice.sections[i].1.body
                == once.sections[i].1.body
        } by {
            lemma_layout_grows(
                self.laid_out_start(),
                self.laid_out_aligns(),
                self.laid_out_sizes(),
                i,
                self.sections.len() as int,
            );
            lemma_align_up(
                layout_end(self.laid_out_start(), self.laid_out_aligns(), self.laid_out_sizes(), i),
                self.laid_out_aligns()[i] as int,
            );
        }
    }
}


impl ObjectView {
    /// After two layouts the object has settled: a third changes nothing at
    /// all, not even the body of `.symtab`.
    pub proof fn lemma_layout_settles(self)
        requires
            self.layout_error() is None,
        ensures
            self.laid_out().layout_error() is None,
            self.laid_out().laid_out().layout_error() is None,
            self.laid_out().laid_out().laid_out() == self.laid_out().laid_out(),
    {
        let once = self.laid_out();
        let twice = once.laid_out();
        let thrice = twice.laid_out();
        self.lemma_layout_idempotent();
        once.lemma_layout_idempotent();
        self.lemma_laid_out_tables();
        once.lemma_laid_out_tables();
        twice.lemma_laid_out_tables();
        assert(once.sections.len() == self.sections.len());
        assert forall|i: int| 0 <= i < twice.sections.len() implies #[trigger] thrice.sections[i]
            == twice.sections[i] by {
            assert(thrice.sections[i].0 == twice.sections[i].0);
            assert(thrice.sections[i].1.header == twice.sections[i].1.header);
            if find_name(once.section_names(), ".symtab"@) == Some(i) {
                assert(thrice.sections[i].1.body == symbol_table(
                    values_of(twice.symbols),
                    twice.header.e_ident.ei_class,
                    twice.header.e_ident.ei_data,
                ));
                assert(twice.sections[i].1.body == symbol_table(
                    values_of(once.symbols),
                    once.header.e_ident.ei_class,
                    once.header.e_ident.ei_data,
                ));
            }
            assert(thrice.sections[i].1 =~= twice.sections[i].1);
        }
        assert(thrice.sections =~= twice.sections);
        assert(thrice =~= twice);
    }
}

} // verus!
