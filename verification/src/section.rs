use vstd::prelude::*;
use crate::error::ElfError;
use crate::object::Class;
use crate::object::Endianness;
use crate::util::lemma_field_lengths;
use crate::util::lemma_u64_field_at;
use crate::util::lemma_u32_field_at;
use crate::util::lemma_u32_bytes_of_at;
use crate::util::lemma_u32_field;
use crate::util::lemma_u64_bytes_of_at;
use crate::util::lemma_u64_field;
use crate::util::overlay;
use crate::util::put_u32;
use crate::util::put_u64;
use crate::util::u32_at;
use crate::util::u32_bytes;
use crate::util::u64_at;
use crate::util::u64_bytes;
use crate::util::ReadExt;
use crate::util::WriteExt;

pub mod shtype;

verus! {

#[derive(Debug, Clone, Copy, PartialEq, Eq)]
pub struct SectionHeader {
    /// An offset to a string in the .shstrtab section that represents the name of this section.
    pub sh_name: u32,
    /// Identifies the type of this header.
    pub sh_type: u32,
    /// Identifies the attributes of the section.
    pub sh_flags: u64,
    /// Virtual address of the section in memory, for sections that are loaded.
    pub sh_addr: u64,
    /// Offset of the section in the file image.
    pub sh_offset: u64,
    /// Size in bytes of the section in the file image. May be 0.
    pub sh_size: u64,
    /// The section index of an associated section; its meaning depends on the type.
    pub sh_link: u32,
    /// Extra information about the section; its meaning depends on the type.
    pub sh_info: u32,
    /// The required alignment of the section.
    pub sh_addralign: u64,
    /// The size, in bytes, of each entry, for sections that hold fixed-size entries; zero otherwise.
    pub sh_entsize: u64,
}

impl SectionHeader {
    /// The number of bytes that one record takes.
    pub open spec fn encoded_len(class: Class) -> nat {
        match class {
            Class::Bits32 => 40,
            Class::Bits64 => 64,
        }
    }

    /// Whether every field can be written in the class without loss.
    pub open spec fn fits(&self, class: Class) -> bool {
        class == Class::Bits32 ==> self.sh_flags <= u32::MAX && self.sh_addr <= u32::MAX
            && self.sh_offset <= u32::MAX && self.sh_size <= u32::MAX
            && self.sh_addralign <= u32::MAX && self.sh_entsize <= u32::MAX
    }

    /// The bytes of the entry. In the 32-bit class every field takes four
    /// bytes and the wide fields keep their low 32 bits.
    pub open spec fn encoding(&self, class: Class, endian: Endianness) -> Seq<u8> {
        match class {
            Class::Bits32 => u32_bytes(endian, self.sh_name) + u32_bytes(endian, self.sh_type)
                + u32_bytes(endian, self.sh_flags as u32) + u32_bytes(endian, self.sh_addr as u32)
                + u32_bytes(endian, self.sh_offset as u32) + u32_bytes(endian, self.sh_size as u32)
                + u32_bytes(endian, self.sh_link) + u32_bytes(endian, self.sh_info)
                + u32_bytes(endian, self.sh_addralign as u32)
                + u32_bytes(endian, self.sh_entsize as u32),
            Class::Bits64 => u32_bytes(endian, self.sh_name) + u32_bytes(endian, self.sh_type)
                + u64_bytes(endian, self.sh_flags) + u64_bytes(endian, self.sh_addr)
                + u64_bytes(endian, self.sh_offset) + u64_bytes(endian, self.sh_size)
                + u32_bytes(endian, self.sh_link) + u32_bytes(endian, self.sh_info)
                + u64_bytes(endian, self.sh_addralign) + u64_bytes(endian, self.sh_entsize),
        }
    }

    /// The record that the bytes from `at` on hold.
    pub open spec fn decoding(class: Class, endian: Endianness, bytes: Seq<u8>, at: int) -> Self {
        match class {
            Class::Bits32 => SectionHeader {
                sh_name: u32_at(endian, bytes, at),
                sh_type: u32_at(endian, bytes, at + 4),
                sh_flags: u32_at(endian, bytes, at + 8) as u64,
                sh_addr: u32_at(endian, bytes, at + 12) as u64,
                sh_offset: u32_at(endian, bytes, at + 16) as u64,
                sh_size: u32_at(endian, bytes, at + 20) as u64,
                sh_link: u32_at(endian, bytes, at + 24),
                sh_info: u32_at(endian, bytes, at + 28),
                sh_addralign: u32_at(endian, bytes, at + 32) as u64,
                sh_entsize: u32_at(endian, bytes, at + 36) as u64,
            },
            Class::Bits64 => SectionHeader {
                sh_name: u32_at(endian, bytes, at),
                sh_type: u32_at(endian, bytes, at + 4),
                sh_flags: u64_at(endian, bytes, at + 8),
                sh_addr: u64_at(endian, bytes, at + 16),
                sh_offset: u64_at(endian, bytes, at + 24),
                sh_size: u64_at(endian, bytes, at + 32),
                sh_link: u32_at(endian, bytes, at + 40),
                sh_info: u32_at(endian, bytes, at + 44),
                sh_addralign: u64_at(endian, bytes, at + 48),
                sh_entsize: u64_at(endian, bytes, at + 56),
            },
        }
    }

    /// Reads one entry of the section header table at the cursor. The read
    /// fails where fewer bytes than one entry are left; the cursor then stands
    /// somewhere in what is left.
    pub fn read<R: ReadExt>(class: &Class, endian: &Endianness, buf: &mut R) -> (r: Result<
        Self,
        ElfError,
    >)
        ensures
            final(buf).bytes() == old(buf).bytes(),
            match r {
                Ok(h) => old(buf).cursor() + Self::encoded_len(*class) <= old(buf).bytes().len()
                    && h == Self::decoding(
                    *class,
                    *endian,
                    old(buf).bytes(),
                    old(buf).cursor() as int,
                ) && final(buf).cursor() == old(buf).cursor() + Self::encoded_len(*class),
                Err(e) => e == ElfError::TruncatedInput && old(buf).cursor() + Self::encoded_len(
                    *class,
                ) > old(buf).bytes().len(),
            },
    {
        let prog = match class {
            Class::Bits32 => Self {
                sh_name: buf.read_u32(endian)?,
                sh_type: buf.read_u32(endian)?,
                sh_flags: buf.read_u32(endian)? as u64,
                sh_addr: buf.read_u32(endian)? as u64,
                sh_offset: buf.read_u32(endian)? as u64,
                sh_size: buf.read_u32(endian)? as u64,
                sh_link: buf.read_u32(endian)?,
                sh_info: buf.read_u32(endian)?,
                sh_addralign: buf.read_u32(endian)? as u64,
                sh_entsize: buf.read_u32(endian)? as u64,
            },
            Class::Bits64 => Self {
                sh_name: buf.read_u32(endian)?,
                sh_type: buf.read_u32(endian)?,
                sh_flags: buf.read_u64(endian)?,
                sh_addr: buf.read_u64(endian)?,
                sh_offset: buf.read_u64(endian)?,
                sh_size: buf.read_u64(endian)?,
                sh_link: buf.read_u32(endian)?,
                sh_info: buf.read_u32(endian)?,
                sh_addralign: buf.read_u64(endian)?,
                sh_entsize: buf.read_u64(endian)?,
            },
        };
        Ok(prog)
    }

    /// The bytes of the record, as [`SectionHeader::write`] writes them.
    pub fn to_bytes(&self, class: &Class, endian: &Endianness) -> (raw: Vec<u8>)
        ensures
            raw@ == self.encoding(*class, *endian),
            raw@.len() == Self::encoded_len(*class),
    {
        let mut raw: Vec<u8> = Vec::new();
        proof {
            lemma_field_lengths(*endian);
        }
        match class {
            Class::Bits32 => {
                put_u32(&mut raw, endian, self.sh_name);
                put_u32(&mut raw, endian, self.sh_type);
                put_u32(&mut raw, endian, #[verifier::truncate] (self.sh_flags as u32));
                put_u32(&mut raw, endian, #[verifier::truncate] (self.sh_addr as u32));
                put_u32(&mut raw, endian, #[verifier::truncate] (self.sh_offset as u32));
                put_u32(&mut raw, endian, #[verifier::truncate] (self.sh_size as u32));
                put_u32(&mut raw, endian, self.sh_link);
                put_u32(&mut raw, endian, self.sh_info);
                put_u32(&mut raw, endian, #[verifier::truncate] (self.sh_addralign as u32));
                put_u32(&mut raw, endian, #[verifier::truncate] (self.sh_entsize as u32));
            },
            Class::Bits64 => {
                put_u32(&mut raw, endian, self.sh_name);
                put_u32(&mut raw, endian, self.sh_type);
                put_u64(&mut raw, endian, self.sh_flags);
                put_u64(&mut raw, endian, self.sh_addr);
                put_u64(&mut raw, endian, self.sh_offset);
                put_u64(&mut raw, endian, self.sh_size);
                put_u32(&mut raw, endian, self.sh_link);
                put_u32(&mut raw, endian, self.sh_info);
                put_u64(&mut raw, endian, self.sh_addralign);
                put_u64(&mut raw, endian, self.sh_entsize);
            },
        }
        assert(raw@ =~= self.encoding(*class, *endian));
        raw
    }

    /// Writes the record at the cursor and returns the number of bytes
    /// written. Nothing is written where the write fails.
    pub fn write<W: WriteExt>(&self, class: &Class, endian: &Endianness, buf: &mut W) -> (r:
        Result<usize, ElfError>)
        ensures
            match r {
                Ok(n) => n == Self::encoded_len(*class) && final(buf).bytes() == overlay(
                    old(buf).bytes(),
                    old(buf).cursor(),
                    self.encoding(*class, *endian),
                ) && final(buf).cursor() == old(buf).cursor() + n && final(buf).cursor() <= usize::MAX,
                Err(e) => e == ElfError::OffsetOverflow && old(buf).cursor() + Self::encoded_len(
                    *class,
                ) > usize::MAX && final(buf).bytes() == old(buf).bytes() && final(buf).cursor()
                    == old(buf).cursor(),
            },
    {
        let raw = self.to_bytes(class, endian);
        buf.write_all(raw.as_slice())
    }

    /// Reading back what was written gives the record again, in both classes
    /// and both byte orders, as long as every field fits the class.
    pub proof fn lemma_decode_encode(&self, class: Class, endian: Endianness)
        requires
            self.fits(class),
        ensures
            self.encoding(class, endian).len() == Self::encoded_len(class),
            Self::decoding(class, endian, self.encoding(class, endian), 0) == *self,
    {
        lemma_field_lengths(endian);
        let e = self.encoding(class, endian);
        match class {
            Class::Bits32 => {
                lemma_u32_field(endian, e, 0, self.sh_name);
                lemma_u32_field(endian, e, 4, self.sh_type);
                lemma_u32_field(endian, e, 8, self.sh_flags as u32);
                lemma_u32_field(endian, e, 12, self.sh_addr as u32);
                lemma_u32_field(endian, e, 16, self.sh_offset as u32);
                lemma_u32_field(endian, e, 20, self.sh_size as u32);
                lemma_u32_field(endian, e, 24, self.sh_link);
                lemma_u32_field(endian, e, 28, self.sh_info);
                lemma_u32_field(endian, e, 32, self.sh_addralign as u32);
                lemma_u32_field(endian, e, 36, self.sh_entsize as u32);
            },
            Class::Bits64 => {
                lemma_u32_field(endian, e, 0, self.sh_name);
                lemma_u32_field(endian, e, 4, self.sh_type);
                lemma_u64_field(endian, e, 8, self.sh_flags);
                lemma_u64_field(endian, e, 16, self.sh_addr);
                lemma_u64_field(endian, e, 24, self.sh_offset);
                lemma_u64_field(endian, e, 32, self.sh_size);
                lemma_u32_field(endian, e, 40, self.sh_link);
                lemma_u32_field(endian, e, 44, self.sh_info);
                lemma_u64_field(endian, e, 48, self.sh_addralign);
                lemma_u64_field(endian, e, 56, self.sh_entsize);
            },
        }
    }

    /// Writing what was read gives the bytes again, in both classes and both
    /// byte orders.
    pub proof fn lemma_encode_decode(class: Class, endian: Endianness, bytes: Seq<u8>, at: int)
        requires
            0 <= at,
            at + Self::encoded_len(class) <= bytes.len(),
        ensures
            Self::decoding(class, endian, bytes, at).fits(class),
            Self::decoding(class, endian, bytes, at).encoding(class, endian) == bytes.subrange(
                at,
                at + Self::encoded_len(class),
            ),
    {
        lemma_field_lengths(endian);
        match class {
            Class::Bits32 => {
                lemma_u32_bytes_of_at(endian, bytes, at);
                lemma_u32_bytes_of_at(endian, bytes, at + 4);
                lemma_u32_bytes_of_at(endian, bytes, at + 8);
                lemma_u32_bytes_of_at(endian, bytes, at + 12);
                lemma_u32_bytes_of_at(endian, bytes, at + 16);
                lemma_u32_bytes_of_at(endian, bytes, at + 20);
                lemma_u32_bytes_of_at(endian, bytes, at + 24);
                lemma_u32_bytes_of_at(endian, bytes, at + 28);
                lemma_u32_bytes_of_at(endian, bytes, at + 32);
                lemma_u32_bytes_of_at(endian, bytes, at + 36);
            },
            Class::Bits64 => {
                lemma_u32_bytes_of_at(endian, bytes, at);
                lemma_u32_bytes_of_at(endian, bytes, at + 4);
                lemma_u64_bytes_of_at(endian, bytes, at + 8);
                lemma_u64_bytes_of_at(endian, bytes, at + 16);
                lemma_u64_bytes_of_at(endian, bytes, at + 24);
                lemma_u64_bytes_of_at(endian, bytes, at + 32);
                lemma_u32_bytes_of_at(endian, bytes, at + 40);
                lemma_u32_bytes_of_at(endian, bytes, at + 44);
                lemma_u64_bytes_of_at(endian, bytes, at + 48);
                lemma_u64_bytes_of_at(endian, bytes, at + 56);
            },
        }
        assert(Self::decoding(class, endian, bytes, at).encoding(class, endian) =~= bytes.subrange(
            at,
            at + Self::encoded_len(class),
        ));
    }
}

#[derive(Debug, PartialEq, Eq)]
pub struct Section {
    pub header: SectionHeader,
    pub body: Vec<u8>,
}

/// What a section holds: its header and the bytes of its body.
#[verifier::ext_equal]
pub struct SectionView {
    pub header: SectionHeader,
    pub body: Seq<u8>,
}

impl View for Section {
    type V = SectionView;

    open spec fn view(&self) -> SectionView {
        SectionView { header: self.header, body: self.body@ }
    }
}

impl Clone for Section {
    /// A section with the same header and the same bytes.
    fn clone(&self) -> (s: Self)
        ensures
            s@ == self@,
    {
        Section { header: self.header, body: self.body.clone() }
    }
}

impl Section {
    /// A section with the given header and no content.
    pub fn new(header: SectionHeader) -> (s: Self)
        ensures
            s@ == (SectionView { header: header, body: Seq::<u8>::empty() }),
    {
        Self { header: header, body: Vec::new() }
    }
}


impl SectionHeader {
    /// Where the bytes from `at` on are those of a record whose fields fit
    /// the class, reading them gives that record.
    pub proof fn lemma_decoding_at(&self, class: Class, endian: Endianness, bytes: Seq<u8>, at: int)
        requires
            self.fits(class),
            0 <= at,
            at + Self::encoded_len(class) <= bytes.len(),
            bytes.subrange(at, at + Self::encoded_len(class)) == self.encoding(class, endian),
        ensures
            Self::decoding(class, endian, bytes, at) == *self,
    {
        lemma_field_lengths(endian);
        let e = self.encoding(class, endian);
        match class {
            Class::Bits32 => {
                lemma_u32_field_at(endian, bytes, at, e, 0, self.sh_name);
                lemma_u32_field_at(endian, bytes, at, e, 4, self.sh_type);
                lemma_u32_field_at(endian, bytes, at, e, 8, self.sh_flags as u32);
                lemma_u32_field_at(endian, bytes, at, e, 12, self.sh_addr as u32);
                lemma_u32_field_at(endian, bytes, at, e, 16, self.sh_offset as u32);
                lemma_u32_field_at(endian, bytes, at, e, 20, self.sh_size as u32);
                lemma_u32_field_at(endian, bytes, at, e, 24, self.sh_link);
                lemma_u32_field_at(endian, bytes, at, e, 28, self.sh_info);
                lemma_u32_field_at(endian, bytes, at, e, 32, self.sh_addralign as u32);
                lemma_u32_field_at(endian, bytes, at, e, 36, self.sh_entsize as u32);
            },
            Class::Bits64 => {
                lemma_u32_field_at(endian, bytes, at, e, 0, self.sh_name);
                lemma_u32_field_at(endian, bytes, at, e, 4, self.sh_type);
                lemma_u64_field_at(endian, bytes, at, e, 8, self.sh_flags);
                lemma_u64_field_at(endian, bytes, at, e, 16, self.sh_addr);
                lemma_u64_field_at(endian, bytes, at, e, 24, self.sh_offset);
                lemma_u64_field_at(endian, bytes, at, e, 32, self.sh_size);
                lemma_u32_field_at(endian, bytes, at, e, 40, self.sh_link);
                lemma_u32_field_at(endian, bytes, at, e, 44, self.sh_info);
                lemma_u64_field_at(endian, bytes, at, e, 48, self.sh_addralign);
                lemma_u64_field_at(endian, bytes, at, e, 56, self.sh_entsize);
            },
        }
    }
}

} // verus!
