use vstd::prelude::*;
use indexmap::IndexMap;
use crate::section::Section;
use crate::section::SectionView;
use crate::segment::Segment;
use crate::symbol::Symbol;
use crate::tables::find_name;
use crate::tables::names_of;
use crate::tables::section_entries;
use crate::tables::sections_get_index;
use crate::tables::sections_get_index_mut;
use crate::tables::sections_get_index_of;
use crate::tables::sections_len;
use crate::tables::sections_new;
use crate::tables::symbol_entries;
use crate::tables::symbols_get_index;
use crate::tables::symbols_len;
use crate::tables::symbols_new;
use crate::tables::values_of;

verus! {

/// Width of the address-sized fields.
#[derive(Debug, Clone, Copy, PartialEq, Eq, Structural)]
pub enum Class {
    Bits32,
    Bits64,
}

/// Byte order of every multi-byte field.
#[derive(Debug, Clone, Copy, PartialEq, Eq, Structural)]
pub enum Endianness {
    Little,
    Big,
}

impl Class {
    /// The byte that stands for the class in the identification block.
    pub open spec fn spec_tag(self) -> u8 {
        match self {
            Class::Bits32 => 1,
            Class::Bits64 => 2,
        }
    }

    #[verifier::when_used_as_spec(spec_tag)]
    pub fn tag(self) -> (t: u8)
        ensures
            t == self.spec_tag(),
    {
        match self {
            Class::Bits32 => 1,
            Class::Bits64 => 2,
        }
    }
}

impl Endianness {
    /// The byte that stands for the byte order in the identification block.
    pub open spec fn spec_tag(self) -> u8 {
        match self {
            Endianness::Little => 1,
            Endianness::Big => 2,
        }
    }

    #[verifier::when_used_as_spec(spec_tag)]
    pub fn tag(self) -> (t: u8)
        ensures
            t == self.spec_tag(),
    {
        match self {
            Endianness::Little => 1,
            Endianness::Big => 2,
        }
    }
}

impl Default for Class {
    fn default() -> (c: Class)
        ensures
            c == Class::Bits64,
    {
        Class::Bits64
    }
}

impl Default for Endianness {
    fn default() -> (e: Endianness)
        ensures
            e == Endianness::Little,
    {
        Endianness::Little
    }
}


/// The identification block that opens the file header. It says how every
/// other structure of the image is laid out.
#[derive(Debug, Clone, Copy, PartialEq, Eq)]
pub struct Ident {
    pub ei_magic: [u8; 4],
    pub ei_class: Class,
    pub ei_data: Endianness,
    pub ei_version: u8,
    pub ei_osabi: u8,
    pub ei_abiversion: u8,
    pub ei_pad: [u8; 7],
}

/// The file header. Offsets are held in 64 bits whatever the class.
#[derive(Debug, Clone, Copy, PartialEq, Eq)]
pub struct Header {
    pub e_ident: Ident,
    pub e_type: u16,
    pub e_machine: u16,
    pub e_version: u32,
    pub e_entry: u64,
    pub e_phoff: u64,
    pub e_shoff: u64,
    pub e_flags: u32,
    pub e_ehsize: u16,
    pub e_phentsize: u16,
    pub e_phnum: u16,
    pub e_shentsize: u16,
    pub e_shnum: u16,
    pub e_shstrndx: u16,
}

impl Default for Ident {
    /// Zeros, in the 64-bit class and little endian.
    fn default() -> (i: Ident)
        ensures
            i == Header::default_value().e_ident,
    {
        Ident {
            ei_magic: [0u8, 0u8, 0u8, 0u8],
            ei_class: Class::Bits64,
            ei_data: Endianness::Little,
            ei_version: 0,
            ei_osabi: 0,
            ei_abiversion: 0,
            ei_pad: [0u8, 0u8, 0u8, 0u8, 0u8, 0u8, 0u8],
        }
    }
}

impl Header {
    /// The header that [`Header::default`] returns: zeros, in the 64-bit
    /// class and little endian.
    pub open spec fn default_value() -> Header {
        Header {
            e_ident: Ident {
                ei_magic: [0u8, 0u8, 0u8, 0u8],
                ei_class: Class::Bits64,
                ei_data: Endianness::Little,
                ei_version: 0,
                ei_osabi: 0,
                ei_abiversion: 0,
                ei_pad: [0u8, 0u8, 0u8, 0u8, 0u8, 0u8, 0u8],
            },
            e_type: 0,
            e_machine: 0,
            e_version: 0,
            e_entry: 0,
            e_phoff: 0,
            e_shoff: 0,
            e_flags: 0,
            e_ehsize: 0,
            e_phentsize: 0,
            e_phnum: 0,
            e_shentsize: 0,
            e_shnum: 0,
            e_shstrndx: 0,
        }
    }
}

impl Default for Header {
    fn default() -> (h: Header)
        ensures
            h == Header::default_value(),
    {
        Header {
            e_ident: Ident::default(),
            e_type: 0,
            e_machine: 0,
            e_version: 0,
            e_entry: 0,
            e_phoff: 0,
            e_shoff: 0,
            e_flags: 0,
            e_ehsize: 0,
            e_phentsize: 0,
            e_phnum: 0,
            e_shentsize: 0,
            e_shnum: 0,
            e_shstrndx: 0,
        }
    }
}


/// A simplified ELF representation: the file header, the segments in table
/// order, the sections and the symbols under their names and in table order,
/// and copies of the two string tables as they were read.
#[derive(Debug, Clone)]
pub struct Object {
    pub header: Header,
    pub segments: Vec<Segment>,
    pub sections: IndexMap<String, Section>,
    pub symbols: IndexMap<String, Symbol>,
    pub shstrtab: Option<Section>,
    pub strtab: Option<Section>,
}

/// What an object holds: the header, the segments in table order, the
/// sections and the symbols in table order with their names, and the two
/// cached string tables.
#[verifier::ext_equal]
pub struct ObjectView {
    pub header: Header,
    pub segments: Seq<Segment>,
    pub sections: Seq<(Seq<char>, SectionView)>,
    pub symbols: Seq<(Seq<char>, Symbol)>,
    pub shstrtab: Option<SectionView>,
    pub strtab: Option<SectionView>,
}

/// The entries of a map of sections, each section by what it holds.
pub open spec fn entry_views(entries: Seq<(Seq<char>, Section)>) -> Seq<(Seq<char>, SectionView)> {
    Seq::new(entries.len(), |i: int| (entries[i].0, entries[i].1@))
}

/// The sections of a list, each by what it holds.
pub open spec fn section_views(sections: Seq<Section>) -> Seq<SectionView> {
    Seq::new(sections.len(), |i: int| sections[i]@)
}

impl View for Object {
    type V = ObjectView;

    open spec fn view(&self) -> ObjectView {
        ObjectView {
            header: self.header,
            segments: self.segments@,
            sections: entry_views(self.section_list()),
            symbols: self.symbol_list(),
            shstrtab: match self.shstrtab {
                Some(s) => Some(s@),
                None => None,
            },
            strtab: match self.strtab {
                Some(s) => Some(s@),
                None => None,
            },
        }
    }
}

/// The sections of the given type among `sections`, in their order.
pub open spec fn of_type(sections: Seq<Section>, sh_type: u32) -> Seq<Section>
    decreases sections.len(),
{
    if sections.len() == 0 {
        Seq::empty()
    } else if sections.last().header.sh_type == sh_type {
        of_type(sections.drop_last(), sh_type).push(sections.last())
    } else {
        of_type(sections.drop_last(), sh_type)
    }
}

/// How many of the first `i` sections have the given type.
pub open spec fn rank_of_type(sections: Seq<Section>, sh_type: u32, i: int) -> int {
    of_type(sections.take(i), sh_type).len() as int
}

impl Object {
    /// The sections in table order, each with its name.
    pub open spec fn section_list(&self) -> Seq<(Seq<char>, Section)> {
        section_entries(self.sections)
    }

    /// The symbols in table order, each with its name.
    pub open spec fn symbol_list(&self) -> Seq<(Seq<char>, Symbol)> {
        symbol_entries(self.symbols)
    }

    /// An object with a default header and nothing else.
    pub fn new() -> (o: Self)
        ensures
            o.header == Header::default_value(),
            o.segments@.len() == 0,
            o.section_list().len() == 0,
            o.symbol_list().len() == 0,
            o.shstrtab is None,
            o.strtab is None,
    {
        Self {
            header: Header::default(),
            segments: Vec::new(),
            sections: sections_new(),
            symbols: symbols_new(),
            shstrtab: None,
            strtab: None,
        }
    }

    /// All sections of the given type, in table order.
    pub fn get_sections(&self, sh_type: u32) -> (r: Vec<&Section>)
        ensures
            r@.len() == of_type(values_of(self.section_list()), sh_type).len(),
            forall|i: int|
                0 <= i < r@.len() ==> *(#[trigger] r@[i]) == of_type(
                    values_of(self.section_list()),
                    sh_type,
                )[i],
    {
        let ghost all = values_of(self.section_list());
        let count: usize = sections_len(&self.sections);
        let mut found: Vec<&Section> = Vec::new();
        let mut i: usize = 0;
        while i < count
            invariant
                i <= count,
                count == self.section_list().len(),
                all == values_of(self.section_list()),
                found@.len() == of_type(all.take(i as int), sh_type).len(),
                forall|k: int|
                    0 <= k < found@.len() ==> *(#[trigger] found@[k]) == of_type(
                        all.take(i as int),
                        sh_type,
                    )[k],
            decreases count - i,
        {
            proof {
                assert(all.take(i + 1).drop_last() =~= all.take(i as int));
                assert(all.take(i + 1).last() == all[i as int]);
            }
            match sections_get_index(&self.sections, i) {
                Some((_, section)) => {
                    if section.header.sh_type == sh_type {
                        found.push(section);
                    }
                },
                None => {},
            }
            i += 1;
        }
        assert(all.take(count as int) =~= all);
        found
    }

    /// Attempts to find a section by name.
    pub fn find_section(&self, name: &str) -> (r: Option<&Section>)
        ensures
            match find_name(names_of(self.section_list()), name@) {
                Some(i) => r == Some(&self.section_list()[i].1),
                None => r is None,
            },
    {
        match sections_get_index_of(&self.sections, name) {
            Some(index) => {
                proof {
                    crate::tables::lemma_find_name(names_of(self.section_list()), name@);
                }
                match sections_get_index(&self.sections, index) {
                    Some((_, section)) => Some(section),
                    None => None,
                }
            },
            None => None,
        }
    }

    /// Attempts to find a section by name and returns its index, cut to 16
    /// bits.
    pub fn find_section_idx(&self, name: &str) -> (r: Option<u16>)
        ensures
            match find_name(names_of(self.section_list()), name@) {
                Some(i) => r == Some(i as u16),
                None => r is None,
            },
    {
        if let Some(x) = sections_get_index_of(&self.sections, name) {
            return Some(#[verifier::truncate] (x as u16));
        }
        None
    }

    /// Attempts to find a section by name and gives a mutable reference to
    /// it. Whatever is written through the reference, the section keeps its
    /// name and its place, and the other sections stay as they are.
    pub fn find_section_mut(&mut self, name: &str) -> (r: Option<&mut Section>)
        ensures
            final(self).header == old(self).header,
            final(self).segments == old(self).segments,
            final(self).symbols == old(self).symbols,
            final(self).shstrtab == old(self).shstrtab,
            final(self).strtab == old(self).strtab,
            match find_name(names_of(old(self).section_list()), name@) {
                Some(i) => match r {
                    Some(section) => *section == old(self).section_list()[i].1
                        && final(self).section_list() == old(self).section_list().update(
                        i,
                        (old(self).section_list()[i].0, *final(section)),
                    ),
                    None => false,
                },
                None => r is None && final(self).section_list() == old(self).section_list(),
            },
    {
        match sections_get_index_of(&self.sections, name) {
            Some(index) => {
                proof {
                    crate::tables::lemma_find_name(names_of(self.section_list()), name@);
                }
                sections_get_index_mut(&mut self.sections, index)
            },
            None => None,
        }
    }

    /// All symbols, in table order.
    pub fn get_symbols(&self) -> (r: Vec<&Symbol>)
        ensures
            r@.len() == self.symbol_list().len(),
            forall|i: int| 0 <= i < r@.len() ==> *(#[trigger] r@[i]) == self.symbol_list()[i].1,
    {
        let count: usize = symbols_len(&self.symbols);
        let mut all: Vec<&Symbol> = Vec::new();
        let mut i: usize = 0;
        while i < count
            invariant
                i <= count,
                count == self.symbol_list().len(),
                all@.len() == i,
                forall|k: int| 0 <= k < i ==> *(#[trigger] all@[k]) == self.symbol_list()[k].1,
            decreases count - i,
        {
            match symbols_get_index(&self.symbols, i) {
                Some((_, symbol)) => {
                    all.push(symbol);
                },
                None => {},
            }
            i += 1;
        }
        all
    }

    /// Mutable references to all symbols, in table order. Whatever is
    /// written through them, every symbol keeps its name and its place.
    pub fn get_symbols_mut(&mut self) -> (r: Vec<&mut Symbol>)
        ensures
            final(self).header == old(self).header,
            final(self).segments == old(self).segments,
            final(self).sections == old(self).sections,
            final(self).shstrtab == old(self).shstrtab,
            final(self).strtab == old(self).strtab,
            r@.len() == old(self).symbol_list().len(),
            final(self).symbol_list().len() == old(self).symbol_list().len(),
            forall|i: int|
                0 <= i < r@.len() ==> *(#[trigger] r@[i]) == old(self).symbol_list()[i].1,
            forall|i: int|
                0 <= i < r@.len() ==> #[trigger] final(self).symbol_list()[i] == (
                    old(self).symbol_list()[i].0,
                    *final(r@[i]),
                ),
    {
        crate::tables::symbols_values_mut(&mut self.symbols)
    }

    /// Mutable references to all sections of the given type, in table
    /// order. Whatever is written through them, every section keeps its name
    /// and its place, and the sections of other types stay as they are.
    pub fn get_sections_mut(&mut self, sh_type: u32) -> (r: Vec<&mut Section>)
        ensures
            final(self).header == old(self).header,
            final(self).segments == old(self).segments,
            final(self).symbols == old(self).symbols,
            final(self).shstrtab == old(self).shstrtab,
            final(self).strtab == old(self).strtab,
            r@.len() == of_type(values_of(old(self).section_list()), sh_type).len(),
            forall|k: int|
                0 <= k < r@.len() ==> *(#[trigger] r@[k]) == of_type(
                    values_of(old(self).section_list()),
                    sh_type,
                )[k],
            final(self).section_list().len() == old(self).section_list().len(),
            forall|i: int|
                0 <= i < old(self).section_list().len()
                    ==> #[trigger] final(self).section_list()[i] == (if old(
                    self,
                ).section_list()[i].1.header.sh_type == sh_type {
                    (
                        old(self).section_list()[i].0,
                        *final(r@[rank_of_type(values_of(old(self).section_list()), sh_type, i)]),
                    )
                } else {
                    old(self).section_list()[i]
                }),
    {
        let ghost vals = values_of(old(self).section_list());
        let mut all = crate::tables::sections_values_mut(&mut self.sections);
        let ghost all0 = all@;
        let count: usize = all.len();
        let mut back: Vec<&mut Section> = Vec::new();
        let mut i: usize = count;
        while i > 0
            invariant
                i <= count,
                count == all0.len(),
                all@ == all0.take(i as int),
                back@.len() == count - i,
                forall|k: int|
                    0 <= k < count - i ==> *(#[trigger] back@[k]) == *all0[count - 1 - k]
                        && *final(back@[k]) == *final(all0[count - 1 - k]),
            decreases i,
        {
            let ghost before = back@;
            let section = all.pop().unwrap();
            assert(section == all0[i - 1]);
            back.push(section);
            assert(forall|k: int| 0 <= k < count - i ==> back@[k] == before[k]);
            i -= 1;
        }
        let ghost back0 = back@;
        let mut found: Vec<&mut Section> = Vec::new();
        while i < count
            invariant
                i <= count,
                count == all0.len(),
                count == vals.len(),
                back0.len() == count,
                forall|k: int|
                    0 <= k < count ==> *(#[trigger] back0[k]) == *all0[count - 1 - k]
                        && *final(back0[k]) == *final(all0[count - 1 - k]),
                forall|k: int| 0 <= k < count ==> *(#[trigger] all0[k]) == vals[k],
                back@ == back0.take(count - i),
                found@.len() == rank_of_type(vals, sh_type, i as int),
                forall|k: int|
                    0 <= k < found@.len() ==> *(#[trigger] found@[k]) == of_type(
                        vals.take(i as int),
                        sh_type,
                    )[k],
                forall|j: int|
                    0 <= j < i && vals[j].header.sh_type == sh_type ==> 0 <= (
                    #[trigger] rank_of_type(vals, sh_type, j)) < found@.len()
                        && *final(found@[rank_of_type(vals, sh_type, j)]) == *final(all0[j]),
                forall|j: int|
                    0 <= j < i && vals[j].header.sh_type != sh_type
                        ==> *final(#[trigger] all0[j]) == vals[j],
            decreases count - i,
        {
            proof {
                assert(vals.take(i + 1).drop_last() =~= vals.take(i as int));
                assert(vals.take(i + 1).last() == vals[i as int]);
                lemma_rank_grows(vals, sh_type, i as int);
            }
            let ghost before = found@;
            let section = back.pop().unwrap();
            assert(section == back0[count - 1 - i]);
            assert(*section == vals[i as int]);
            assert(*final(section) == *final(all0[i as int]));
            if section.header.sh_type == sh_type {
                found.push(section);
                assert(forall|k: int| 0 <= k < before.len() ==> found@[k] == before[k]);
                assert(before.len() == rank_of_type(vals, sh_type, i as int));
                assert(*final(found@[before.len() as int]) == *final(all0[i as int]));
            }
            assert forall|j: int| 0 <= j < i + 1 && vals[j].header.sh_type == sh_type implies 0
                <= (#[trigger] rank_of_type(vals, sh_type, j)) < found@.len()
                    && *final(found@[rank_of_type(vals, sh_type, j)]) == *final(all0[j]) by {
                if j < i {
                    assert(0 <= rank_of_type(vals, sh_type, j) < before.len());
                    assert(*final(before[rank_of_type(vals, sh_type, j)]) == *final(all0[j]));
                    assert(found@[rank_of_type(vals, sh_type, j)] == before[rank_of_type(
                        vals,
                        sh_type,
                        j,
                    )]);
                }
            }
            i += 1;
        }
        assert(vals.take(count as int) =~= vals);
        found
    }
}

/// The rank of a section among those of its type does not fall along the
/// table.
pub proof fn lemma_rank_grows(sections: Seq<Section>, sh_type: u32, i: int)
    requires
        0 <= i < sections.len(),
    ensures
        rank_of_type(sections, sh_type, i + 1) == rank_of_type(sections, sh_type, i) + (
        if sections[i].header.sh_type == sh_type {
            1int
        } else {
            0int
        }),
        forall|j: int| 0 <= j <= i
            ==> rank_of_type(sections, sh_type, j) <= rank_of_type(sections, sh_type, i),
    decreases i,
{
    assert(sections.take(i + 1).drop_last() =~= sections.take(i));
    assert(sections.take(i + 1).last() == sections[i]);
    if i > 0 {
        lemma_rank_grows(sections, sh_type, i - 1);
    }
}

} // verus!
