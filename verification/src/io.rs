use vstd::prelude::*;
use crate::error::ElfError;
use crate::object::Class;
use crate::object::Endianness;
use crate::object::Header;
use crate::object::Ident;
use crate::object::Object;
use crate::object::entry_views;
use crate::object::section_views;
use crate::object::ObjectView;
use crate::layout::resolve_name;
use crate::parse::first_failure;
use crate::parse::inserted_all;
use crate::parse::names_at;
use crate::parse::section_name_offsets;
use crate::parse::successes;
use crate::parse::symbol_name_offsets;
use crate::section::Section;
use crate::segment::Segment;
use crate::stream::Reader;
use crate::symbol::Symbol;
use crate::tables::inserted;
use crate::tables::lemma_find_name;
use crate::tables::names_of;
use crate::tables::section_entries;
use crate::tables::sections_insert;
use crate::tables::sections_new;
use crate::tables::symbol_entries;
use crate::tables::symbols_insert;
use crate::tables::symbols_new;
use indexmap::IndexMap;
use crate::section::SectionHeader;
use crate::segment::ProgramHeader;
use crate::tables::sections_get_index;
use crate::tables::sections_len;
use crate::util::SeekExt;
use crate::util::lemma_field_lengths;
use crate::util::lemma_u16_bytes_of_at;
use crate::util::lemma_u16_field;
use crate::util::lemma_u16_field_at;
use crate::util::lemma_u32_field_at;
use crate::util::lemma_u64_field_at;
use crate::util::lemma_u32_bytes_of_at;
use crate::util::lemma_u32_field;
use crate::util::lemma_u64_bytes_of_at;
use crate::util::lemma_u64_field;
use crate::util::overlay;
use crate::util::put_u16;
use crate::util::put_u32;
use crate::util::put_u64;
use crate::util::put_u8;
use crate::util::u16_at;
use crate::util::u16_bytes;
use crate::util::u32_at;
use crate::util::u32_bytes;
use crate::util::u64_at;
use crate::util::u64_bytes;
use crate::util::ByteStream;
use crate::util::ReadExt;
use crate::util::WriteExt;

verus! {

/// Whether the four bytes from `at` on are `7F 45 4C 46`.
pub open spec fn has_magic(bytes: Seq<u8>, at: int) -> bool {
    bytes[at] == 0x7F && bytes[at + 1] == 0x45 && bytes[at + 2] == 0x4C && bytes[at + 3] == 0x46
}

/// The class that a tag byte stands for; the 64-bit class for any byte but 1.
pub open spec fn class_of(tag: u8) -> Class {
    if tag == 1 {
        Class::Bits32
    } else {
        Class::Bits64
    }
}

/// The byte order that a tag byte stands for; big endian for any byte but 1.
pub open spec fn endianness_of(tag: u8) -> Endianness {
    if tag == 1 {
        Endianness::Little
    } else {
        Endianness::Big
    }
}

impl Ident {
    /// The sixteen bytes of the block.
    pub open spec fn encoding(&self) -> Seq<u8> {
        self.ei_magic@ + seq![
            self.ei_class.spec_tag(),
            self.ei_data.spec_tag(),
            self.ei_version,
            self.ei_osabi,
            self.ei_abiversion,
        ] + self.ei_pad@
    }

    /// The block that the sixteen bytes from `at` on hold.
    pub open spec fn decoding(bytes: Seq<u8>, at: int) -> Ident {
        Ident {
            ei_magic: [bytes[at], bytes[at + 1], bytes[at + 2], bytes[at + 3]],
            ei_class: class_of(bytes[at + 4]),
            ei_data: endianness_of(bytes[at + 5]),
            ei_version: bytes[at + 6],
            ei_osabi: bytes[at + 7],
            ei_abiversion: bytes[at + 8],
            ei_pad: [
                bytes[at + 9],
                bytes[at + 10],
                bytes[at + 11],
                bytes[at + 12],
                bytes[at + 13],
                bytes[at + 14],
                bytes[at + 15],
            ],
        }
    }
}

impl Header {
    /// The number of bytes that the file header takes.
    pub open spec fn encoded_len(class: Class) -> nat {
        match class {
            Class::Bits32 => 52,
            Class::Bits64 => 64,
        }
    }

    /// Whether every field can be written in the header's class without loss.
    pub open spec fn fits(&self) -> bool {
        self.e_ident.ei_class == Class::Bits32 ==> self.e_entry <= u32::MAX && self.e_phoff
            <= u32::MAX && self.e_shoff <= u32::MAX
    }

    /// The bytes of the header, in the class and byte order that its
    /// identification block names. In the 32-bit class the entry point and
    /// the two table offsets keep their low 32 bits.
    pub open spec fn encoding(&self) -> Seq<u8> {
        let endian = self.e_ident.ei_data;
        let start = self.e_ident.encoding() + u16_bytes(endian, self.e_type) + u16_bytes(
            endian,
            self.e_machine,
        ) + u32_bytes(endian, self.e_version);
        let wide = match self.e_ident.ei_class {
            Class::Bits32 => u32_bytes(endian, self.e_entry as u32) + u32_bytes(
                endian,
                self.e_phoff as u32,
            ) + u32_bytes(endian, self.e_shoff as u32),
            Class::Bits64 => u64_bytes(endian, self.e_entry) + u64_bytes(endian, self.e_phoff)
                + u64_bytes(endian, self.e_shoff),
        };
        start + wide + u32_bytes(endian, self.e_flags) + u16_bytes(endian, self.e_ehsize)
            + u16_bytes(endian, self.e_phentsize) + u16_bytes(endian, self.e_phnum) + u16_bytes(
            endian,
            self.e_shentsize,
        ) + u16_bytes(endian, self.e_shnum) + u16_bytes(endian, self.e_shstrndx)
    }

    /// Why the bytes from `at` on hold no file header, or `None` where they
    /// hold one. The bytes are judged in the order in which they stand: the
    /// magic, then the class, then the byte order, then the length.
    pub open spec fn decoding_error(bytes: Seq<u8>, at: int) -> Option<ElfError> {
        if at + 4 > bytes.len() {
            Some(ElfError::TruncatedInput)
        } else if !has_magic(bytes, at) {
            Some(ElfError::InvalidMagic)
        } else if at + 5 > bytes.len() {
            Some(ElfError::TruncatedInput)
        } else if bytes[at + 4] != 1 && bytes[at + 4] != 2 {
            Some(ElfError::UnsupportedClass)
        } else if at + 6 > bytes.len() {
            Some(ElfError::TruncatedInput)
        } else if bytes[at + 5] != 1 && bytes[at + 5] != 2 {
            Some(ElfError::UnsupportedEndianness)
        } else if at + Self::encoded_len(class_of(bytes[at + 4])) > bytes.len() {
            Some(ElfError::TruncatedInput)
        } else {
            None
        }
    }

    /// The header that the bytes from `at` on hold.
    pub open spec fn decoding(bytes: Seq<u8>, at: int) -> Header {
        let endian = endianness_of(bytes[at + 5]);
        match class_of(bytes[at + 4]) {
            Class::Bits32 => Header {
                e_ident: Ident::decoding(bytes, at),
                e_type: u16_at(endian, bytes, at + 16),
                e_machine: u16_at(endian, bytes, at + 18),
                e_version: u32_at(endian, bytes, at + 20),
                e_entry: u32_at(endian, bytes, at + 24) as u64,
                e_phoff: u32_at(endian, bytes, at + 28) as u64,
                e_shoff: u32_at(endian, bytes, at + 32) as u64,
                e_flags: u32_at(endian, bytes, at + 36),
                e_ehsize: u16_at(endian, bytes, at + 40),
                e_phentsize: u16_at(endian, bytes, at + 42),
                e_phnum: u16_at(endian, bytes, at + 44),
                e_shentsize: u16_at(endian, bytes, at + 46),
                e_shnum: u16_at(endian, bytes, at + 48),
                e_shstrndx: u16_at(endian, bytes, at + 50),
            },
            Class::Bits64 => Header {
                e_ident: Ident::decoding(bytes, at),
                e_type: u16_at(endian, bytes, at + 16),
                e_machine: u16_at(endian, bytes, at + 18),
                e_version: u32_at(endian, bytes, at + 20),
                e_entry: u64_at(endian, bytes, at + 24),
                e_phoff: u64_at(endian, bytes, at + 32),
                e_shoff: u64_at(endian, bytes, at + 40),
                e_flags: u32_at(endian, bytes, at + 48),
                e_ehsize: u16_at(endian, bytes, at + 52),
                e_phentsize: u16_at(endian, bytes, at + 54),
                e_phnum: u16_at(endian, bytes, at + 56),
                e_shentsize: u16_at(endian, bytes, at + 58),
                e_shnum: u16_at(endian, bytes, at + 60),
                e_shstrndx: u16_at(endian, bytes, at + 62),
            },
        }
    }

    /// Reads the file header at the cursor. The magic, the class and the
    /// byte order are checked as they are read, and each has an error of its
    /// own. After a failure the cursor stands somewhere in what is left.
    pub fn read<R: ReadExt>(buf: &mut R) -> (r: Result<Self, ElfError>)
        ensures
            final(buf).bytes() == old(buf).bytes(),
            match r {
                Ok(h) => Self::decoding_error(old(buf).bytes(), old(buf).cursor() as int)
                    is None && h == Self::decoding(old(buf).bytes(), old(buf).cursor() as int)
                    && final(buf).cursor() == old(buf).cursor() + Self::encoded_len(
                    h.e_ident.ei_class,
                ),
                Err(e) => Self::decoding_error(old(buf).bytes(), old(buf).cursor() as int)
                    == Some(e),
            },
    {
        let ghost bytes = buf.bytes();
        let ghost at = buf.cursor() as int;
        let magic = buf.read_bytes::<4>()?;
        if !(magic[0] == 0x7F && magic[1] == 0x45 && magic[2] == 0x4C && magic[3] == 0x46) {
            return Err(ElfError::InvalidMagic);
        }
        let class = match buf.read_u8()? {
            1 => Class::Bits32,
            2 => Class::Bits64,
            _ => {
                return Err(ElfError::UnsupportedClass);
            },
        };
        let data = match buf.read_u8()? {
            1 => Endianness::Little,
            2 => Endianness::Big,
            _ => {
                return Err(ElfError::UnsupportedEndianness);
            },
        };
        let ident = Ident {
            ei_magic: magic,
            ei_class: class,
            ei_data: data,
            ei_version: buf.read_u8()?,
            ei_osabi: buf.read_u8()?,
            ei_abiversion: buf.read_u8()?,
            ei_pad: buf.read_bytes::<7>()?,
        };
        let header = match ident.ei_class {
            Class::Bits32 => Self {
                e_ident: ident,
                e_type: buf.read_u16(&ident.ei_data)?,
                e_machine: buf.read_u16(&ident.ei_data)?,
                e_version: buf.read_u32(&ident.ei_data)?,
                e_entry: buf.read_u32(&ident.ei_data)? as u64,
                e_phoff: buf.read_u32(&ident.ei_data)? as u64,
                e_shoff: buf.read_u32(&ident.ei_data)? as u64,
                e_flags: buf.read_u32(&ident.ei_data)?,
                e_ehsize: buf.read_u16(&ident.ei_data)?,
                e_phentsize: buf.read_u16(&ident.ei_data)?,
                e_phnum: buf.read_u16(&ident.ei_data)?,
                e_shentsize: buf.read_u16(&ident.ei_data)?,
                e_shnum: buf.read_u16(&ident.ei_data)?,
                e_shstrndx: buf.read_u16(&ident.ei_data)?,
            },
            Class::Bits64 => Self {
                e_ident: ident,
                e_type: buf.read_u16(&ident.ei_data)?,
                e_machine: buf.read_u16(&ident.ei_data)?,
                e_version: buf.read_u32(&ident.ei_data)?,
                e_entry: buf.read_u64(&ident.ei_data)?,
                e_phoff: buf.read_u64(&ident.ei_data)?,
                e_shoff: buf.read_u64(&ident.ei_data)?,
                e_flags: buf.read_u32(&ident.ei_data)?,
                e_ehsize: buf.read_u16(&ident.ei_data)?,
                e_phentsize: buf.read_u16(&ident.ei_data)?,
                e_phnum: buf.read_u16(&ident.ei_data)?,
                e_shentsize: buf.read_u16(&ident.ei_data)?,
                e_shnum: buf.read_u16(&ident.ei_data)?,
                e_shstrndx: buf.read_u16(&ident.ei_data)?,
            },
        };
        proof {
            let want = Self::decoding(bytes, at);
            assert(header.e_ident.ei_magic =~= want.e_ident.ei_magic);
            assert(header.e_ident.ei_pad =~= want.e_ident.ei_pad);
        }
        Ok(header)
    }

    /// The bytes of the header, as [`Header::write`] writes them.
    pub fn to_bytes(&self) -> (raw: Vec<u8>)
        ensures
            raw@ == self.encoding(),
            raw@.len() == Self::encoded_len(self.e_ident.ei_class),
    {
        let endian = &self.e_ident.ei_data;
        let mut raw: Vec<u8> = Vec::new();
        proof {
            lemma_field_lengths(*endian);
        }
        put_u8(&mut raw, self.e_ident.ei_magic[0]);
        put_u8(&mut raw, self.e_ident.ei_magic[1]);
        put_u8(&mut raw, self.e_ident.ei_magic[2]);
        put_u8(&mut raw, self.e_ident.ei_magic[3]);
        put_u8(&mut raw, self.e_ident.ei_class.tag());
        put_u8(&mut raw, self.e_ident.ei_data.tag());
        put_u8(&mut raw, self.e_ident.ei_version);
        put_u8(&mut raw, self.e_ident.ei_osabi);
        put_u8(&mut raw, self.e_ident.ei_abiversion);
        put_u8(&mut raw, self.e_ident.ei_pad[0]);
        put_u8(&mut raw, self.e_ident.ei_pad[1]);
        put_u8(&mut raw, self.e_ident.ei_pad[2]);
        put_u8(&mut raw, self.e_ident.ei_pad[3]);
        put_u8(&mut raw, self.e_ident.ei_pad[4]);
        put_u8(&mut raw, self.e_ident.ei_pad[5]);
        put_u8(&mut raw, self.e_ident.ei_pad[6]);
        assert(raw@ =~= self.e_ident.encoding());
        put_u16(&mut raw, endian, self.e_type);
        put_u16(&mut raw, endian, self.e_machine);
        put_u32(&mut raw, endian, self.e_version);
        match self.e_ident.ei_class {
            Class::Bits32 => {
                put_u32(&mut raw, endian, #[verifier::truncate] (self.e_entry as u32));
                put_u32(&mut raw, endian, #[verifier::truncate] (self.e_phoff as u32));
                put_u32(&mut raw, endian, #[verifier::truncate] (self.e_shoff as u32));
            },
            Class::Bits64 => {
                put_u64(&mut raw, endian, self.e_entry);
                put_u64(&mut raw, endian, self.e_phoff);
                put_u64(&mut raw, endian, self.e_shoff);
            },
        }
        put_u32(&mut raw, endian, self.e_flags);
        put_u16(&mut raw, endian, self.e_ehsize);
        put_u16(&mut raw, endian, self.e_phentsize);
        put_u16(&mut raw, endian, self.e_phnum);
        put_u16(&mut raw, endian, self.e_shentsize);
        put_u16(&mut raw, endian, self.e_shnum);
        put_u16(&mut raw, endian, self.e_shstrndx);
        assert(raw@ =~= self.encoding());
        raw
    }

    /// Writes the header at the cursor and returns the number of bytes
    /// written. Nothing is written where the write fails.
    pub fn write<W: WriteExt>(&self, buf: &mut W) -> (r: Result<usize, ElfError>)
        ensures
            match r {
                Ok(n) => n == Self::encoded_len(self.e_ident.ei_class) && final(buf).bytes()
                    == overlay(old(buf).bytes(), old(buf).cursor(), self.encoding())
                        && final(buf).cursor() == old(buf).cursor() + n
                        && final(buf).cursor() <= usize::MAX,
                Err(e) => e == ElfError::OffsetOverflow && old(buf).cursor() + Self::encoded_len(
                    self.e_ident.ei_class,
                ) > usize::MAX && final(buf).bytes() == old(buf).bytes() && final(buf).cursor()
                    == old(buf).cursor(),
            },
    {
        let raw = self.to_bytes();
        buf.write_all(raw.as_slice())
    }

    /// Reading back what was written gives the header again, in both classes
    /// and both byte orders, as long as the header starts with the magic
    /// bytes and every field fits the class.
    pub proof fn lemma_decode_encode(&self)
        requires
            has_magic(self.e_ident.ei_magic@, 0),
            self.fits(),
        ensures
            self.encoding().len() == Self::encoded_len(self.e_ident.ei_class),
            Self::decoding_error(self.encoding(), 0) is None,
            Self::decoding(self.encoding(), 0) == *self,
    {
        let endian = self.e_ident.ei_data;
        lemma_field_lengths(endian);
        let e = self.encoding();
        assert(self.e_ident.encoding().len() == 16);
        assert(e.subrange(0, 16) =~= self.e_ident.encoding());
        assert(e.subrange(0, 4) =~= self.e_ident.ei_magic@);
        assert(e.subrange(9, 16) =~= self.e_ident.ei_pad@);
        assert(e[4] == self.e_ident.ei_class.spec_tag());
        assert(e[5] == self.e_ident.ei_data.spec_tag());
        lemma_u16_field(endian, e, 16, self.e_type);
        lemma_u16_field(endian, e, 18, self.e_machine);
        lemma_u32_field(endian, e, 20, self.e_version);
        match self.e_ident.ei_class {
            Class::Bits32 => {
                lemma_u32_field(endian, e, 24, self.e_entry as u32);
                lemma_u32_field(endian, e, 28, self.e_phoff as u32);
                lemma_u32_field(endian, e, 32, self.e_shoff as u32);
                lemma_u32_field(endian, e, 36, self.e_flags);
                lemma_u16_field(endian, e, 40, self.e_ehsize);
                lemma_u16_field(endian, e, 42, self.e_phentsize);
                lemma_u16_field(endian, e, 44, self.e_phnum);
                lemma_u16_field(endian, e, 46, self.e_shentsize);
                lemma_u16_field(endian, e, 48, self.e_shnum);
                lemma_u16_field(endian, e, 50, self.e_shstrndx);
            },
            Class::Bits64 => {
                lemma_u64_field(endian, e, 24, self.e_entry);
                lemma_u64_field(endian, e, 32, self.e_phoff);
                lemma_u64_field(endian, e, 40, self.e_shoff);
                lemma_u32_field(endian, e, 48, self.e_flags);
                lemma_u16_field(endian, e, 52, self.e_ehsize);
                lemma_u16_field(endian, e, 54, self.e_phentsize);
                lemma_u16_field(endian, e, 56, self.e_phnum);
                lemma_u16_field(endian, e, 58, self.e_shentsize);
                lemma_u16_field(endian, e, 60, self.e_shnum);
                lemma_u16_field(endian, e, 62, self.e_shstrndx);
            },
        }
        let back = Self::decoding(e, 0);
        assert(back.e_ident.ei_magic =~= self.e_ident.ei_magic);
        assert(back.e_ident.ei_pad =~= self.e_ident.ei_pad);
    }

    /// Where the bytes from `at` on are those of a header that starts with
    /// the magic bytes and whose fields fit its class, reading them gives
    /// that header.
    pub proof fn lemma_decoding_at(&self, bytes: Seq<u8>, at: int)
        requires
            has_magic(self.e_ident.ei_magic@, 0),
            self.fits(),
            0 <= at,
            at + Self::encoded_len(self.e_ident.ei_class) <= bytes.len(),
            bytes.subrange(at, at + Self::encoded_len(self.e_ident.ei_class)) == self.encoding(),
        ensures
            Self::decoding_error(bytes, at) is None,
            Self::decoding(bytes, at) == *self,
    {
        let endian = self.e_ident.ei_data;
        lemma_field_lengths(endian);
        let e = self.encoding();
        assert(self.e_ident.encoding().len() == 16);
        assert(e.subrange(0, 16) =~= self.e_ident.encoding());
        assert forall|k: int| 0 <= k < 16 implies bytes[at + k] == #[trigger] e[k] by {
            assert(bytes.subrange(at, at + e.len())[k] == bytes[at + k]);
        }
        assert(e[0] == self.e_ident.ei_magic@[0]);
        assert(e[1] == self.e_ident.ei_magic@[1]);
        assert(e[2] == self.e_ident.ei_magic@[2]);
        assert(e[3] == self.e_ident.ei_magic@[3]);
        assert(e[4] == self.e_ident.ei_class.spec_tag());
        assert(e[5] == self.e_ident.ei_data.spec_tag());
        assert(e[6] == self.e_ident.ei_version);
        assert(e[7] == self.e_ident.ei_osabi);
        assert(e[8] == self.e_ident.ei_abiversion);
        assert(e[9] == self.e_ident.ei_pad@[0]);
        assert(e[10] == self.e_ident.ei_pad@[1]);
        assert(e[11] == self.e_ident.ei_pad@[2]);
        assert(e[12] == self.e_ident.ei_pad@[3]);
        assert(e[13] == self.e_ident.ei_pad@[4]);
        assert(e[14] == self.e_ident.ei_pad@[5]);
        assert(e[15] == self.e_ident.ei_pad@[6]);
        lemma_u16_field_at(endian, bytes, at, e, 16, self.e_type);
        lemma_u16_field_at(endian, bytes, at, e, 18, self.e_machine);
        lemma_u32_field_at(endian, bytes, at, e, 20, self.e_version);
        match self.e_ident.ei_class {
            Class::Bits32 => {
                lemma_u32_field_at(endian, bytes, at, e, 24, self.e_entry as u32);
                lemma_u32_field_at(endian, bytes, at, e, 28, self.e_phoff as u32);
                lemma_u32_field_at(endian, bytes, at, e, 32, self.e_shoff as u32);
                lemma_u32_field_at(endian, bytes, at, e, 36, self.e_flags);
                lemma_u16_field_at(endian, bytes, at, e, 40, self.e_ehsize);
                lemma_u16_field_at(endian, bytes, at, e, 42, self.e_phentsize);
                lemma_u16_field_at(endian, bytes, at, e, 44, self.e_phnum);
                lemma_u16_field_at(endian, bytes, at, e, 46, self.e_shentsize);
                lemma_u16_field_at(endian, bytes, at, e, 48, self.e_shnum);
                lemma_u16_field_at(endian, bytes, at, e, 50, self.e_shstrndx);
            },
            Class::Bits64 => {
                lemma_u64_field_at(endian, bytes, at, e, 24, self.e_entry);
                lemma_u64_field_at(endian, bytes, at, e, 32, self.e_phoff);
                lemma_u64_field_at(endian, bytes, at, e, 40, self.e_shoff);
                lemma_u32_field_at(endian, bytes, at, e, 48, self.e_flags);
                lemma_u16_field_at(endian, bytes, at, e, 52, self.e_ehsize);
                lemma_u16_field_at(endian, bytes, at, e, 54, self.e_phentsize);
                lemma_u16_field_at(endian, bytes, at, e, 56, self.e_phnum);
                lemma_u16_field_at(endian, bytes, at, e, 58, self.e_shentsize);
                lemma_u16_field_at(endian, bytes, at, e, 60, self.e_shnum);
                lemma_u16_field_at(endian, bytes, at, e, 62, self.e_shstrndx);
            },
        }
        let back = Self::decoding(bytes, at);
        assert(back.e_ident.ei_magic =~= self.e_ident.ei_magic);
        assert(back.e_ident.ei_pad =~= self.e_ident.ei_pad);
    }

    /// Writing what was read gives the bytes again, in both classes and both
    /// byte orders.
    pub proof fn lemma_encode_decode(bytes: Seq<u8>, at: int)
        requires
            0 <= at,
            Self::decoding_error(bytes, at) is None,
        ensures
            Self::decoding(bytes, at).fits(),
            has_magic(Self::decoding(bytes, at).e_ident.ei_magic@, 0),
            Self::decoding(bytes, at).encoding() == bytes.subrange(
                at,
                at + Self::encoded_len(Self::decoding(bytes, at).e_ident.ei_class),
            ),
    {
        let this = Self::decoding(bytes, at);
        let endian = this.e_ident.ei_data;
        lemma_field_lengths(endian);
        assert(this.e_ident.encoding() =~= bytes.subrange(at, at + 16));
        lemma_u16_bytes_of_at(endian, bytes, at + 16);
        lemma_u16_bytes_of_at(endian, bytes, at + 18);
        lemma_u32_bytes_of_at(endian, bytes, at + 20);
        match this.e_ident.ei_class {
            Class::Bits32 => {
                lemma_u32_bytes_of_at(endian, bytes, at + 24);
                lemma_u32_bytes_of_at(endian, bytes, at + 28);
                lemma_u32_bytes_of_at(endian, bytes, at + 32);
                lemma_u32_bytes_of_at(endian, bytes, at + 36);
                lemma_u16_bytes_of_at(endian, bytes, at + 40);
                lemma_u16_bytes_of_at(endian, bytes, at + 42);
                lemma_u16_bytes_of_at(endian, bytes, at + 44);
                lemma_u16_bytes_of_at(endian, bytes, at + 46);
                lemma_u16_bytes_of_at(endian, bytes, at + 48);
                lemma_u16_bytes_of_at(endian, bytes, at + 50);
            },
            Class::Bits64 => {
                lemma_u64_bytes_of_at(endian, bytes, at + 24);
                lemma_u64_bytes_of_at(endian, bytes, at + 32);
                lemma_u64_bytes_of_at(endian, bytes, at + 40);
                lemma_u32_bytes_of_at(endian, bytes, at + 48);
                lemma_u16_bytes_of_at(endian, bytes, at + 52);
                lemma_u16_bytes_of_at(endian, bytes, at + 54);
                lemma_u16_bytes_of_at(endian, bytes, at + 56);
                lemma_u16_bytes_of_at(endian, bytes, at + 58);
                lemma_u16_bytes_of_at(endian, bytes, at + 60);
                lemma_u16_bytes_of_at(endian, bytes, at + 62);
            },
        }
        assert(this.encoding() =~= bytes.subrange(
            at,
            at + Self::encoded_len(this.e_ident.ei_class),
        ));
    }
}


impl ObjectView {
    /// `image` after the first `count` entries of the program header table
    /// were written, one behind the other from the table's offset on.
    pub open spec fn with_segments(&self, image: Seq<u8>, count: int) -> Seq<u8>
        decreases count,
    {
        if count <= 0 {
            image
        } else {
            overlay(
                self.with_segments(image, count - 1),
                (self.header.e_phoff + (count - 1) * ProgramHeader::encoded_len(
                    self.header.e_ident.ei_class,
                )) as nat,
                self.segments[count - 1].header.encoding(
                    self.header.e_ident.ei_class,
                    self.header.e_ident.ei_data,
                ),
            )
        }
    }

    /// `image` after the bodies of the first `count` sections were written,
    /// each at the file offset that its header names.
    pub open spec fn with_bodies(&self, image: Seq<u8>, count: int) -> Seq<u8>
        decreases count,
    {
        if count <= 0 {
            image
        } else {
            overlay(
                self.with_bodies(image, count - 1),
                self.sections[count - 1].1.header.sh_offset as nat,
                self.sections[count - 1].1.body,
            )
        }
    }

    /// `image` after the first `count` entries of the section header table
    /// were written, one behind the other from the table's offset on.
    pub open spec fn with_section_headers(&self, image: Seq<u8>, count: int) -> Seq<u8>
        decreases count,
    {
        if count <= 0 {
            image
        } else {
            overlay(
                self.with_section_headers(image, count - 1),
                (self.header.e_shoff + (count - 1) * SectionHeader::encoded_len(
                    self.header.e_ident.ei_class,
                )) as nat,
                self.sections[count - 1].1.header.encoding(
                    self.header.e_ident.ei_class,
                    self.header.e_ident.ei_data,
                ),
            )
        }
    }

    /// The image that writing the object makes of `image`: the file header
    /// at the start, then the program header table, then every section body
    /// at its own offset, then the section header table. What the object
    /// does not cover stays as it was, and gaps behind the old end are zeros.
    pub open spec fn serialized(&self, image: Seq<u8>) -> Seq<u8> {
        self.with_section_headers(
            self.with_bodies(
                self.with_segments(
                    overlay(image, 0, self.header.encoding()),
                    self.segments.len() as int,
                ),
                self.sections.len() as int,
            ),
            self.sections.len() as int,
        )
    }

    /// Whether some part of the object would end behind the largest place
    /// that a write can reach.
    pub open spec fn write_overflows(&self) -> bool {
        ||| self.segments.len() > 0 && self.header.e_phoff + self.segments.len()
            * ProgramHeader::encoded_len(self.header.e_ident.ei_class) > usize::MAX
        ||| exists|i: int|
            0 <= i < self.sections.len() && (#[trigger] self.sections[i]).1.header.sh_offset
                + self.sections[i].1.body.len() > usize::MAX
        ||| self.sections.len() > 0 && self.header.e_shoff + self.sections.len()
            * SectionHeader::encoded_len(self.header.e_ident.ei_class) > usize::MAX
    }
}

impl Object {
    /// Lays the object out and writes it to `output`.
    ///
    /// The file header goes to the start of the stream, the program header
    /// table to the offset that the header names, every section body to the
    /// file offset of its section, and the section header table to the place
    /// that the layout gave it. The stream is sought to each of these
    /// places, so that every body stands where its header says, with zeros
    /// in the gaps that alignment leaves behind the old end of the stream.
    ///
    /// Where the layout fails nothing is written and the object stays as it
    /// was. Where a write fails the object is laid out, and the stream holds
    /// what was written up to then.
    pub fn write<W: WriteExt + SeekExt>(&mut self, output: &mut W) -> (r: Result<(), ElfError>)
        ensures
            match r {
                Ok(_) => old(self)@.layout_error() is None && final(self)@ == old(self)@.laid_out()
                    && !final(self)@.write_overflows()
                        && final(output).bytes() == final(self)@.serialized(old(output).bytes()),
                Err(e) => match old(self)@.layout_error() {
                    Some(cause) => e == cause && *final(self) == *old(self)
                        && final(output).bytes() == old(output).bytes()
                        && final(output).cursor() == old(output).cursor(),
                    None => e == ElfError::OffsetOverflow && final(self)@ == old(self)@.laid_out()
                        && final(self)@.write_overflows(),
                },
            },
    {
        match self.update() {
            Ok(_) => {},
            Err(e) => {
                return Err(e);
            },
        }
        let ghost v = self@;
        let ghost image0 = output.bytes();
        let class = self.header.e_ident.ei_class;
        let endian = self.header.e_ident.ei_data;
        output.seek(0);
        match self.header.write(output) {
            Ok(_) => {},
            Err(e) => {
                return Err(e);
            },
        }
        let ghost image1 = output.bytes();
        output.seek(self.header.e_phoff);
        let segment_count: usize = self.segments.len();
        let mut i: usize = 0;
        while i < segment_count
            invariant
                i <= segment_count,
                segment_count == v.segments.len(),
                v == self@,
                class == v.header.e_ident.ei_class,
                endian == v.header.e_ident.ei_data,
                old(self)@.layout_error() is None,
                v == old(self)@.laid_out(),
                output.cursor() == v.header.e_phoff + i * ProgramHeader::encoded_len(class),
                i > 0 ==> output.cursor() <= usize::MAX,
                output.bytes() == v.with_segments(image1, i as int),
            decreases segment_count - i,
        {
            assert((i + 1) * ProgramHeader::encoded_len(class) == i * ProgramHeader::encoded_len(
                class,
            ) + ProgramHeader::encoded_len(class)) by (nonlinear_arith);
            assert((i + 1) * ProgramHeader::encoded_len(class) <= segment_count
                * ProgramHeader::encoded_len(class)) by (nonlinear_arith)
                requires
                    i + 1 <= segment_count,
            ;
            match self.segments[i].header.write(&class, &endian, output) {
                Ok(_) => {},
                Err(e) => {
                    return Err(e);
                },
            }
            i += 1;
        }
        let ghost image2 = output.bytes();
        proof {
            self.lemma_view_names();
        }
        let section_count: usize = sections_len(&self.sections);
        let mut i: usize = 0;
        while i < section_count
            invariant
                i <= section_count,
                section_count == v.sections.len(),
                section_count == self.section_list().len(),
                v == self@,
                old(self)@.layout_error() is None,
                v == old(self)@.laid_out(),
                output.bytes() == v.with_bodies(image2, i as int),
                forall|k: int|
                    0 <= k < i ==> (#[trigger] v.sections[k]).1.header.sh_offset
                        + v.sections[k].1.body.len() <= usize::MAX,
            decreases section_count - i,
        {
            match sections_get_index(&self.sections, i) {
                Some((_, section)) => {
                    assert(section@ == v.sections[i as int].1);
                    output.seek(section.header.sh_offset);
                    match output.write_all(section.body.as_slice()) {
                        Ok(_) => {},
                        Err(e) => {
                            return Err(e);
                        },
                    }
                },
                None => {},
            }
            i += 1;
        }
        let ghost image3 = output.bytes();
        output.seek(self.header.e_shoff);
        let mut i: usize = 0;
        while i < section_count
            invariant
                i <= section_count,
                section_count == v.sections.len(),
                section_count == self.section_list().len(),
                v == self@,
                class == v.header.e_ident.ei_class,
                endian == v.header.e_ident.ei_data,
                old(self)@.layout_error() is None,
                v == old(self)@.laid_out(),
                output.cursor() == v.header.e_shoff + i * SectionHeader::encoded_len(class),
                i > 0 ==> output.cursor() <= usize::MAX,
                image3 == v.with_bodies(image2, section_count as int),
                image2 == v.with_segments(image1, v.segments.len() as int),
                image1 == overlay(old(output).bytes(), 0, v.header.encoding()),
                !(v.segments.len() > 0 && v.header.e_phoff + v.segments.len()
                    * ProgramHeader::encoded_len(class) > usize::MAX),
                forall|k: int|
                    0 <= k < section_count ==> (#[trigger] v.sections[k]).1.header.sh_offset
                        + v.sections[k].1.body.len() <= usize::MAX,
                output.bytes() == v.with_section_headers(image3, i as int),
            decreases section_count - i,
        {
            assert((i + 1) * SectionHeader::encoded_len(class) == i * SectionHeader::encoded_len(
                class,
            ) + SectionHeader::encoded_len(class)) by (nonlinear_arith);
            assert((i + 1) * SectionHeader::encoded_len(class) <= section_count
                * SectionHeader::encoded_len(class)) by (nonlinear_arith)
                requires
                    i + 1 <= section_count,
            ;
            match sections_get_index(&self.sections, i) {
                Some((_, section)) => {
                    assert(section@ == v.sections[i as int].1);
                    match section.header.write(&class, &endian, output) {
                        Ok(_) => {},
                        Err(e) => {
                            return Err(e);
                        },
                    }
                },
                None => {},
            }
            i += 1;
        }
        Ok(())
    }
}


/// Storing a section under a name does to the views of the entries what it
/// does to the entries.
pub proof fn lemma_inserted_views(entries: Seq<(Seq<char>, Section)>, name: Seq<char>, s: Section)
    ensures
        entry_views(inserted(entries, name, s)) == inserted(entry_views(entries), name, s@),
{
    assert(names_of(entry_views(entries)) =~= names_of(entries));
    lemma_find_name(names_of(entries), name);
    assert(entry_views(inserted(entries, name, s)) =~= inserted(entry_views(entries), name, s@));
}

/// Reads the program header table that `header` announces.
fn read_segments<R: ReadExt + SeekExt>(header: &Header, input: &mut R) -> (r: Result<
    Vec<Segment>,
    ElfError,
>)
    ensures
        final(input).bytes() == old(input).bytes(),
        match r {
            Ok(v) => !ObjectView::segments_truncated(*header, old(input).bytes()) && v@
                == ObjectView::parsed_segments(*header, old(input).bytes()),
            Err(e) => e == ElfError::TruncatedInput && ObjectView::segments_truncated(
                *header,
                old(input).bytes(),
            ),
        },
{
    let ghost data = input.bytes();
    let ghost all = ObjectView::parsed_segments(*header, data);
    let ghost size = ProgramHeader::encoded_len(header.e_ident.ei_class) as int;
    let class = header.e_ident.ei_class;
    let endian = header.e_ident.ei_data;
    input.seek(header.e_phoff);
    let mut segments: Vec<Segment> = Vec::new();
    let mut i: u16 = 0;
    while i < header.e_phnum
        invariant
            i <= header.e_phnum,
            data == old(input).bytes(),
            input.bytes() == data,
            class == header.e_ident.ei_class,
            endian == header.e_ident.ei_data,
            size == ProgramHeader::encoded_len(class),
            all == ObjectView::parsed_segments(*header, data),
            input.cursor() == header.e_phoff + i * size,
            i > 0 ==> input.cursor() <= data.len(),
            segments@ == all.take(i as int),
        decreases header.e_phnum - i,
    {
        assert((i + 1) * size == i * size + size) by (nonlinear_arith);
        assert((i + 1) * size <= header.e_phnum * size) by (nonlinear_arith)
            requires
                i + 1 <= header.e_phnum,
                size > 0,
        ;
        let ph = ProgramHeader::read(&class, &endian, input)?;
        segments.push(Segment::new(ph));
        i += 1;
        assert(segments@ =~= all.take(i as int));
    }
    assert(all.take(header.e_phnum as int) =~= all);
    Ok(segments)
}

/// Reads the section header table that `header` announces, and with each
/// entry the body that it names.
fn read_sections<R: ReadExt + SeekExt>(header: &Header, input: &mut R) -> (r: Result<
    Vec<Section>,
    ElfError,
>)
    ensures
        final(input).bytes() == old(input).bytes(),
        match r {
            Ok(v) => !ObjectView::sections_truncated(*header, old(input).bytes())
                && section_views(v@) == ObjectView::parsed_sections(*header, old(input).bytes()),
            Err(e) => e == ElfError::TruncatedInput && ObjectView::sections_truncated(
                *header,
                old(input).bytes(),
            ),
        },
{
    let ghost data = input.bytes();
    let ghost size = SectionHeader::encoded_len(header.e_ident.ei_class) as int;
    let class = header.e_ident.ei_class;
    let endian = header.e_ident.ei_data;
    input.seek(header.e_shoff);
    let mut sections: Vec<Section> = Vec::new();
    let mut i: u16 = 0;
    while i < header.e_shnum
        invariant
            i <= header.e_shnum,
            data == old(input).bytes(),
            input.bytes() == data,
            class == header.e_ident.ei_class,
            endian == header.e_ident.ei_data,
            size == SectionHeader::encoded_len(class),
            input.cursor() == header.e_shoff + i * size,
            sections@.len() == i,
            forall|k: int|
                0 <= k < i ==> (#[trigger] sections@[k])@ == ObjectView::parsed_section(
                    *header,
                    data,
                    k,
                ),
            forall|k: int| 0 <= k < i
                ==> !#[trigger] ObjectView::section_truncated(*header, data, k),
        decreases header.e_shnum - i,
    {
        assert((i + 1) * size == i * size + size) by (nonlinear_arith);
        let section_header = match SectionHeader::read(&class, &endian, input) {
            Ok(h) => h,
            Err(e) => {
                assert(ObjectView::section_truncated(*header, data, i as int));
                return Err(e);
            },
        };
        let next: u64 = input.stream_position();
        if section_header.sh_size > usize::MAX as u64 {
            proof {
                input.lemma_held_in_memory();
            }
            assert(ObjectView::section_truncated(*header, data, i as int));
            return Err(ElfError::TruncatedInput);
        }
        input.seek(section_header.sh_offset);
        let body = match input.read_exact(section_header.sh_size as usize) {
            Ok(body) => body,
            Err(e) => {
                assert(ObjectView::section_truncated(*header, data, i as int));
                return Err(e);
            },
        };
        sections.push(Section { header: section_header, body: body });
        input.seek(next);
        assert(!ObjectView::section_truncated(*header, data, i as int));
        i += 1;
    }
    assert(section_views(sections@) =~= ObjectView::parsed_sections(*header, data));
    Ok(sections)
}

/// Stores a copy of every section under the name that stands at its name
/// offset in `table`.
fn name_sections(table: &[u8], sections: &Vec<Section>) -> (r: Result<
    IndexMap<String, Section>,
    ElfError,
>)
    ensures
        match r {
            Ok(map) => first_failure(
                names_at(table@, section_name_offsets(section_views(sections@))),
            ) is None && entry_views(section_entries(map)) == inserted_all(
                successes(names_at(table@, section_name_offsets(section_views(sections@)))),
                section_views(sections@),
            ),
            Err(e) => first_failure(
                names_at(table@, section_name_offsets(section_views(sections@))),
            ) == Some(e),
        },
{
    let ghost views = section_views(sections@);
    let ghost names = names_at(table@, section_name_offsets(views));
    let mut map = sections_new();
    let mut i: usize = 0;
    assert(names.take(0).len() == 0);
    assert(entry_views(section_entries(map)) =~= inserted_all(
        successes(names).take(0),
        views.take(0),
    ));
    while i < sections.len()
        invariant
            i <= sections@.len(),
            views == section_views(sections@),
            names == names_at(table@, section_name_offsets(views)),
            first_failure(names.take(i as int)) is None,
            entry_views(section_entries(map)) == inserted_all(
                successes(names).take(i as int),
                views.take(i as int),
            ),
        decreases sections@.len() - i,
    {
        proof {
            assert(names.take(i + 1).drop_last() =~= names.take(i as int));
            assert(names.take(i + 1).last() == names[i as int]);
            assert(successes(names).take(i + 1).drop_last() =~= successes(names).take(i as int));
            assert(views.take(i + 1).drop_last() =~= views.take(i as int));
        }
        let name = match resolve_name(table, sections[i].header.sh_name) {
            Ok(name) => name,
            Err(e) => {
                proof {
                    lemma_first_failure_stays(names, i as int + 1);
                }
                return Err(e);
            },
        };
        let section = sections[i].clone();
        proof {
            lemma_inserted_views(section_entries(map), name@, section);
        }
        sections_insert(&mut map, name, section);
        i += 1;
    }
    assert(names.take(sections@.len() as int) =~= names);
    assert(successes(names).take(sections@.len() as int) =~= successes(names));
    assert(views.take(sections@.len() as int) =~= views);
    Ok(map)
}

/// A failure among the first names stays the first failure of all.
pub proof fn lemma_first_failure_stays(results: Seq<Result<Seq<char>, ElfError>>, count: int)
    requires
        0 <= count <= results.len(),
        first_failure(results.take(count)) is Some,
    ensures
        first_failure(results) == first_failure(results.take(count)),
    decreases results.len() - count,
{
    if count < results.len() {
        assert(results.take(count + 1).drop_last() =~= results.take(count));
        lemma_first_failure_stays(results, count + 1);
    } else {
        assert(results.take(count) =~= results);
    }
}

/// Reads the symbol records that the symbol table announces from its body.
fn read_symbols(header: &Header, symtab: &Section) -> (r: Result<Vec<Symbol>, ElfError>)
    ensures
        match r {
            Ok(v) => !ObjectView::symbols_truncated(*header, symtab@) && v@
                == ObjectView::parsed_symbols(*header, symtab@),
            Err(e) => e == ElfError::TruncatedInput && ObjectView::symbols_truncated(
                *header,
                symtab@,
            ),
        },
{
    if symtab.header.sh_entsize == 0 {
        return Err(ElfError::TruncatedInput);
    }
    let class = header.e_ident.ei_class;
    let endian = header.e_ident.ei_data;
    let count: u64 = symtab.header.sh_size / symtab.header.sh_entsize;
    let ghost all = ObjectView::parsed_symbols(*header, symtab@);
    let ghost size = Symbol::encoded_len(class) as int;
    let mut reader = Reader::new(symtab.body.as_slice());
    let mut symbols: Vec<Symbol> = Vec::new();
    let mut i: u64 = 0;
    while i < count
        invariant
            i <= count,
            count == ObjectView::symbol_count(symtab@),
            symtab.header.sh_entsize != 0,
            class == header.e_ident.ei_class,
            endian == header.e_ident.ei_data,
            size == Symbol::encoded_len(class),
            all == ObjectView::parsed_symbols(*header, symtab@),
            reader.bytes() == symtab.body@,
            reader.cursor() == i * size,
            i * size <= symtab.body@.len(),
            symbols@ == all.take(i as int),
        decreases count - i,
    {
        assert((i + 1) * size == i * size + size) by (nonlinear_arith);
        assert((i + 1) * size <= count * size) by (nonlinear_arith)
            requires
                i + 1 <= count,
                size > 0,
        ;
        let symbol = Symbol::read(&class, &endian, &mut reader)?;
        symbols.push(symbol);
        i += 1;
        assert(symbols@ =~= all.take(i as int));
    }
    assert(all.take(count as int) =~= all);
    Ok(symbols)
}

/// Stores every symbol under the name that stands at its name offset in
/// `table`.
fn name_symbols(table: &[u8], symbols: &Vec<Symbol>) -> (r: Result<
    IndexMap<String, Symbol>,
    ElfError,
>)
    ensures
        match r {
            Ok(map) => first_failure(names_at(table@, symbol_name_offsets(symbols@))) is None
                && symbol_entries(map) == inserted_all(
                successes(names_at(table@, symbol_name_offsets(symbols@))),
                symbols@,
            ),
            Err(e) => first_failure(names_at(table@, symbol_name_offsets(symbols@))) == Some(e),
        },
{
    let ghost names = names_at(table@, symbol_name_offsets(symbols@));
    let mut map = symbols_new();
    let mut i: usize = 0;
    assert(names.take(0).len() == 0);
    assert(symbol_entries(map) =~= inserted_all(successes(names).take(0), symbols@.take(0)));
    while i < symbols.len()
        invariant
            i <= symbols@.len(),
            names == names_at(table@, symbol_name_offsets(symbols@)),
            first_failure(names.take(i as int)) is None,
            symbol_entries(map) == inserted_all(
                successes(names).take(i as int),
                symbols@.take(i as int),
            ),
        decreases symbols@.len() - i,
    {
        proof {
            assert(names.take(i + 1).drop_last() =~= names.take(i as int));
            assert(names.take(i + 1).last() == names[i as int]);
            assert(successes(names).take(i + 1).drop_last() =~= successes(names).take(i as int));
            assert(symbols@.take(i + 1).drop_last() =~= symbols@.take(i as int));
        }
        let name = match resolve_name(table, symbols[i].sym_name) {
            Ok(name) => name,
            Err(e) => {
                proof {
                    lemma_first_failure_stays(names, i as int + 1);
                }
                return Err(e);
            },
        };
        symbols_insert(&mut map, name, symbols[i]);
        i += 1;
    }
    assert(names.take(symbols@.len() as int) =~= names);
    assert(successes(names).take(symbols@.len() as int) =~= successes(names));
    assert(symbols@.take(symbols@.len() as int) =~= symbols@);
    Ok(map)
}


impl Object {
    /// Reads a whole image into an object and lays the object out.
    ///
    /// The file header is read from the start of the stream, then the
    /// program header table, then the section header table and with every
    /// entry the body that it names. The sections are stored under the names
    /// that the string table of the header's index gives them, the symbols
    /// of `.symtab` under the names that `.strtab` gives them; a name that
    /// comes twice keeps the later section or symbol. The two string tables
    /// are kept as they were read. On success the cursor stands at the start
    /// of the stream.
    pub fn read<R: ReadExt + SeekExt>(input: &mut R) -> (r: Result<Self, ElfError>)
        ensures
            final(input).bytes() == old(input).bytes(),
            match r {
                Ok(o) => ObjectView::parsed(old(input).bytes()) == Ok::<ObjectView, ElfError>(o@)
                    && final(input).cursor() == 0,
                Err(e) => ObjectView::parsed(old(input).bytes()) == Err::<ObjectView, ElfError>(e),
            },
    {
        let ghost data = input.bytes();
        input.seek(0);
        let header = Header::read(input)?;
        let segments = read_segments(&header, input)?;
        let sections = read_sections(&header, input)?;
        if header.e_shstrndx as usize >= sections.len() {
            return Err(ElfError::MissingRequiredSection(".shstrtab"));
        }
        let shstrtab = sections[header.e_shstrndx as usize].clone();
        let named = name_sections(shstrtab.body.as_slice(), &sections)?;
        let mut result = Object {
            header: header,
            segments: segments,
            sections: named,
            symbols: symbols_new(),
            shstrtab: Some(shstrtab),
            strtab: None,
        };
        proof {
            result.lemma_view_names();
            lemma_find_name(result@.section_names(), ".symtab"@);
            lemma_find_name(result@.section_names(), ".strtab"@);
        }
        let symbols = match result.find_section(".symtab") {
            Some(symtab) => read_symbols(&header, symtab)?,
            None => {
                return Err(ElfError::MissingRequiredSection(".symtab"));
            },
        };
        let strtab = match result.find_section(".strtab") {
            Some(strtab) => strtab.clone(),
            None => {
                return Err(ElfError::MissingRequiredSection(".strtab"));
            },
        };
        let named_symbols = name_symbols(strtab.body.as_slice(), &symbols)?;
        result.symbols = named_symbols;
        result.strtab = Some(strtab);
        input.seek(0);
        proof {
            assert(ObjectView::parsed_raw(data) == Ok::<ObjectView, ElfError>(result@)) by {
                assert(result@ =~= ObjectView::parsed_raw(data)->Ok_0);
            }
        }
        match result.update() {
            Ok(_) => Ok(result),
            Err(e) => Err(e),
        }
    }
}

} // verus!
