use vstd::prelude::*;
use crate::error::ElfError;
use crate::object::Class;
use crate::object::Endianness;
use crate::util::lemma_field_lengths;
use crate::util::lemma_u64_field_at;
use crate::util::lemma_u32_field_at;
use crate::util::lemma_u32_bytes_of_at;
use crate::util::lemma_u32_field;
use crate::util::lemma_u64_bytes_of_at;
use crate::util::lemma_u64_field;
use crate::util::overlay;
use crate::util::put_u32;
use crate::util::put_u64;
use crate::util::u32_at;
use crate::util::u32_bytes;
use crate::util::u64_at;
use crate::util::u64_bytes;
use crate::util::ReadExt;
use crate::util::WriteExt;

pub mod ptype;

verus! {

#[derive(Debug, Clone, Copy, PartialEq, Eq)]
pub struct ProgramHeader {
    pub p_type: u32,
    pub p_flags: u32,
    pub p_offset: u64,
    pub p_vaddr: u64,
    pub p_paddr: u64,
    pub p_filesz: u64,
    pub p_memsz: u64,
    pub p_align: u64,
}

impl ProgramHeader {
    /// The number of bytes that one entry of the program header table takes.
    pub open spec fn encoded_len(class: Class) -> nat {
        match class {
            Class::Bits32 => 32,
            Class::Bits64 => 56,
        }
    }

    /// Whether every field can be written in the class without loss.
    pub open spec fn fits(&self, class: Class) -> bool {
        class == Class::Bits32 ==> self.p_offset <= u32::MAX && self.p_vaddr <= u32::MAX
            && self.p_paddr <= u32::MAX && self.p_filesz <= u32::MAX && self.p_memsz <= u32::MAX
            && self.p_align <= u32::MAX
    }

    /// The bytes of the entry. In the 32-bit class the flags stand behind the
    /// sizes and the wide fields keep their low 32 bits; in the 64-bit class
    /// the flags stand behind the type.
    pub open spec fn encoding(&self, class: Class, endian: Endianness) -> Seq<u8> {
        match class {
            Class::Bits32 => u32_bytes(endian, self.p_type) + u32_bytes(
                endian,
                self.p_offset as u32,
            ) + u32_bytes(endian, self.p_vaddr as u32) + u32_bytes(endian, self.p_paddr as u32)
                + u32_bytes(endian, self.p_filesz as u32) + u32_bytes(endian, self.p_memsz as u32)
                + u32_bytes(endian, self.p_flags) + u32_bytes(endian, self.p_align as u32),
            Class::Bits64 => u32_bytes(endian, self.p_type) + u32_bytes(endian, self.p_flags)
                + u64_bytes(endian, self.p_offset) + u64_bytes(endian, self.p_vaddr) + u64_bytes(
                endian,
                self.p_paddr,
            ) + u64_bytes(endian, self.p_filesz) + u64_bytes(endian, self.p_memsz) + u64_bytes(
                endian,
                self.p_align,
            ),
        }
    }

    /// The entry that the bytes from `at` on hold.
    pub open spec fn decoding(class: Class, endian: Endianness, bytes: Seq<u8>, at: int) -> Self {
        match class {
            Class::Bits32 => ProgramHeader {
                p_type: u32_at(endian, bytes, at),
                p_offset: u32_at(endian, bytes, at + 4) as u64,
                p_vaddr: u32_at(endian, bytes, at + 8) as u64,
                p_paddr: u32_at(endian, bytes, at + 12) as u64,
                p_filesz: u32_at(endian, bytes, at + 16) as u64,
                p_memsz: u32_at(endian, bytes, at + 20) as u64,
                p_flags: u32_at(endian, bytes, at + 24),
                p_align: u32_at(endian, bytes, at + 28) as u64,
            },
            Class::Bits64 => ProgramHeader {
                p_type: u32_at(endian, bytes, at),
                p_flags: u32_at(endian, bytes, at + 4),
                p_offset: u64_at(endian, bytes, at + 8),
                p_vaddr: u64_at(endian, bytes, at + 16),
                p_paddr: u64_at(endian, bytes, at + 24),
                p_filesz: u64_at(endian, bytes, at + 32),
                p_memsz: u64_at(endian, bytes, at + 40),
                p_align: u64_at(endian, bytes, at + 48),
            },
        }
    }

    /// Reads one entry at the cursor. The read fails where fewer bytes than
    /// one entry are left; the cursor then stands somewhere in what is left.
    pub fn read<R: ReadExt>(class: &Class, endian: &Endianness, buf: &mut R) -> (r: Result<
        Self,
        ElfError,
    >)
        ensures
            final(buf).bytes() == old(buf).bytes(),
            match r {
                Ok(h) => old(buf).cursor() + Self::encoded_len(*class) <= old(buf).bytes().len()
                    && h == Self::decoding(
                    *class,
                    *endian,
                    old(buf).bytes(),
                    old(buf).cursor() as int,
                ) && final(buf).cursor() == old(buf).cursor() + Self::encoded_len(*class),
                Err(e) => e == ElfError::TruncatedInput && old(buf).cursor() + Self::encoded_len(
                    *class,
                ) > old(buf).bytes().len(),
            },
    {
        let prog = match class {
            Class::Bits32 => Self {
                p_type: buf.read_u32(endian)?,
                p_offset: buf.read_u32(endian)? as u64,
                p_vaddr: buf.read_u32(endian)? as u64,
                p_paddr: buf.read_u32(endian)? as u64,
                p_filesz: buf.read_u32(endian)? as u64,
                p_memsz: buf.read_u32(endian)? as u64,
                p_flags: buf.read_u32(endian)?,
                p_align: buf.read_u32(endian)? as u64,
            },
            Class::Bits64 => Self {
                p_type: buf.read_u32(endian)?,
                p_flags: buf.read_u32(endian)?,
                p_offset: buf.read_u64(endian)?,
                p_vaddr: buf.read_u64(endian)?,
                p_paddr: buf.read_u64(endian)?,
                p_filesz: buf.read_u64(endian)?,
                p_memsz: buf.read_u64(endian)?,
                p_align: buf.read_u64(endian)?,
            },
        };
        Ok(prog)
    }

    /// The bytes of the entry, as [`ProgramHeader::write`] writes them.
    pub fn to_bytes(&self, class: &Class, endian: &Endianness) -> (raw: Vec<u8>)
        ensures
            raw@ == self.encoding(*class, *endian),
            raw@.len() == Self::encoded_len(*class),
    {
        let mut raw: Vec<u8> = Vec::new();
        proof {
            lemma_field_lengths(*endian);
        }
        match class {
            Class::Bits32 => {
                put_u32(&mut raw, endian, self.p_type);
                put_u32(&mut raw, endian, #[verifier::truncate] (self.p_offset as u32));
                put_u32(&mut raw, endian, #[verifier::truncate] (self.p_vaddr as u32));
                put_u32(&mut raw, endian, #[verifier::truncate] (self.p_paddr as u32));
                put_u32(&mut raw, endian, #[verifier::truncate] (self.p_filesz as u32));
                put_u32(&mut raw, endian, #[verifier::truncate] (self.p_memsz as u32));
                put_u32(&mut raw, endian, self.p_flags);
                put_u32(&mut raw, endian, #[verifier::truncate] (self.p_align as u32));
            },
            Class::Bits64 => {
                put_u32(&mut raw, endian, self.p_type);
                put_u32(&mut raw, endian, self.p_flags);
                put_u64(&mut raw, endian, self.p_offset);
                put_u64(&mut raw, endian, self.p_vaddr);
                put_u64(&mut raw, endian, self.p_paddr);
                put_u64(&mut raw, endian, self.p_filesz);
                put_u64(&mut raw, endian, self.p_memsz);
                put_u64(&mut raw, endian, self.p_align);
            },
        }
        assert(raw@ =~= self.encoding(*class, *endian));
        raw
    }

    /// Writes the entry at the cursor and returns the number of bytes
    /// written. Nothing is written where the write fails.
    pub fn write<W: WriteExt>(&self, class: &Class, endian: &Endianness, buf: &mut W) -> (r:
        Result<usize, ElfError>)
        ensures
            match r {
                Ok(n) => n == Self::encoded_len(*class) && final(buf).bytes() == overlay(
                    old(buf).bytes(),
                    old(buf).cursor(),
                    self.encoding(*class, *endian),
                ) && final(buf).cursor() == old(buf).cursor() + n && final(buf).cursor() <= usize::MAX,
                Err(e) => e == ElfError::OffsetOverflow && old(buf).cursor() + Self::encoded_len(
                    *class,
                ) > usize::MAX && final(buf).bytes() == old(buf).bytes() && final(buf).cursor()
                    == old(buf).cursor(),
            },
    {
        let raw = self.to_bytes(class, endian);
        buf.write_all(raw.as_slice())
    }

    /// Reading back what was written gives the entry again, in both classes
    /// and both byte orders, as long as every field fits the class.
    pub proof fn lemma_decode_encode(&self, class: Class, endian: Endianness)
        requires
            self.fits(class),
        ensures
            self.encoding(class, endian).len() == Self::encoded_len(class),
            Self::decoding(class, endian, self.encoding(class, endian), 0) == *self,
    {
        lemma_field_lengths(endian);
        let e = self.encoding(class, endian);
        match class {
            Class::Bits32 => {
                lemma_u32_field(endian, e, 0, self.p_type);
                lemma_u32_field(endian, e, 4, self.p_offset as u32);
                lemma_u32_field(endian, e, 8, self.p_vaddr as u32);
                lemma_u32_field(endian, e, 12, self.p_paddr as u32);
                lemma_u32_field(endian, e, 16, self.p_filesz as u32);
                lemma_u32_field(endian, e, 20, self.p_memsz as u32);
                lemma_u32_field(endian, e, 24, self.p_flags);
                lemma_u32_field(endian, e, 28, self.p_align as u32);
            },
            Class::Bits64 => {
                lemma_u32_field(endian, e, 0, self.p_type);
                lemma_u32_field(endian, e, 4, self.p_flags);
                lemma_u64_field(endian, e, 8, self.p_offset);
                lemma_u64_field(endian, e, 16, self.p_vaddr);
                lemma_u64_field(endian, e, 24, self.p_paddr);
                lemma_u64_field(endian, e, 32, self.p_filesz);
                lemma_u64_field(endian, e, 40, self.p_memsz);
                lemma_u64_field(endian, e, 48, self.p_align);
            },
        }
    }

    /// Writing what was read gives the bytes again, in both classes and both
    /// byte orders.
    pub proof fn lemma_encode_decode(class: Class, endian: Endianness, bytes: Seq<u8>, at: int)
        requires
            0 <= at,
            at + Self::encoded_len(class) <= bytes.len(),
        ensures
            Self::decoding(class, endian, bytes, at).fits(class),
            Self::decoding(class, endian, bytes, at).encoding(class, endian) == bytes.subrange(
                at,
                at + Self::encoded_len(class),
            ),
    {
        lemma_field_lengths(endian);
        match class {
            Class::Bits32 => {
                lemma_u32_bytes_of_at(endian, bytes, at);
                lemma_u32_bytes_of_at(endian, bytes, at + 4);
                lemma_u32_bytes_of_at(endian, bytes, at + 8);
                lemma_u32_bytes_of_at(endian, bytes, at + 12);
                lemma_u32_bytes_of_at(endian, bytes, at + 16);
                lemma_u32_bytes_of_at(endian, bytes, at + 20);
                lemma_u32_bytes_of_at(endian, bytes, at + 24);
                lemma_u32_bytes_of_at(endian, bytes, at + 28);
            },
            Class::Bits64 => {
                lemma_u32_bytes_of_at(endian, bytes, at);
                lemma_u32_bytes_of_at(endian, bytes, at + 4);
                lemma_u64_bytes_of_at(endian, bytes, at + 8);
                lemma_u64_bytes_of_at(endian, bytes, at + 16);
                lemma_u64_bytes_of_at(endian, bytes, at + 24);
                lemma_u64_bytes_of_at(endian, bytes, at + 32);
                lemma_u64_bytes_of_at(endian, bytes, at + 40);
                lemma_u64_bytes_of_at(endian, bytes, at + 48);
            },
        }
        assert(Self::decoding(class, endian, bytes, at).encoding(class, endian) =~= bytes.subrange(
            at,
            at + Self::encoded_len(class),
        ));
    }
}

#[derive(Debug, Clone, Copy, PartialEq, Eq)]
pub struct Segment {
    pub header: ProgramHeader,
}

impl Segment {
    pub fn new(header: ProgramHeader) -> (s: Self)
        ensures
            s.header == header,
    {
        Self { header: header }
    }
}


impl ProgramHeader {
    /// Where the bytes from `at` on are those of a record whose fields fit
    /// the class, reading them gives that record.
    pub proof fn lemma_decoding_at(&self, class: Class, endian: Endianness, bytes: Seq<u8>, at: int)
        requires
            self.fits(class),
            0 <= at,
            at + Self::encoded_len(class) <= bytes.len(),
            bytes.subrange(at, at + Self::encoded_len(class)) == self.encoding(class, endian),
        ensures
            Self::decoding(class, endian, bytes, at) == *self,
    {
        lemma_field_lengths(endian);
        let e = self.encoding(class, endian);
        match class {
            Class::Bits32 => {
                lemma_u32_field_at(endian, bytes, at, e, 0, self.p_type);
                lemma_u32_field_at(endian, bytes, at, e, 4, self.p_offset as u32);
                lemma_u32_field_at(endian, bytes, at, e, 8, self.p_vaddr as u32);
                lemma_u32_field_at(endian, bytes, at, e, 12, self.p_paddr as u32);
                lemma_u32_field_at(endian, bytes, at, e, 16, self.p_filesz as u32);
                lemma_u32_field_at(endian, bytes, at, e, 20, self.p_memsz as u32);
                lemma_u32_field_at(endian, bytes, at, e, 24, self.p_flags);
                lemma_u32_field_at(endian, bytes, at, e, 28, self.p_align as u32);
            },
            Class::Bits64 => {
                lemma_u32_field_at(endian, bytes, at, e, 0, self.p_type);
                lemma_u32_field_at(endian, bytes, at, e, 4, self.p_flags);
                lemma_u64_field_at(endian, bytes, at, e, 8, self.p_offset);
                lemma_u64_field_at(endian, bytes, at, e, 16, self.p_vaddr);
                lemma_u64_field_at(endian, bytes, at, e, 24, self.p_paddr);
                lemma_u64_field_at(endian, bytes, at, e, 32, self.p_filesz);
                lemma_u64_field_at(endian, bytes, at, e, 40, self.p_memsz);
                lemma_u64_field_at(endian, bytes, at, e, 48, self.p_align);
            },
        }
    }
}

} // verus!
