use vstd::prelude::*;
use crate::error::ElfError;
use crate::object::Class;
use crate::object::Endianness;
use crate::object::Object;
use crate::layout::resolve_name;
use crate::layout::resolved_name;
use crate::tables::find_name;
use crate::util::lemma_field_lengths;
use crate::util::lemma_u64_field_at;
use crate::util::lemma_u32_field_at;
use crate::util::lemma_u16_field_at;
use crate::util::lemma_u16_bytes_of_at;
use crate::util::lemma_u16_field;
use crate::util::lemma_u32_bytes_of_at;
use crate::util::lemma_u32_field;
use crate::util::lemma_u64_bytes_of_at;
use crate::util::lemma_u64_field;
use crate::util::overlay;
use crate::util::put_u16;
use crate::util::put_u32;
use crate::util::put_u64;
use crate::util::put_u8;
use crate::util::u16_at;
use crate::util::u16_bytes;
use crate::util::u32_at;
use crate::util::u32_bytes;
use crate::util::u64_at;
use crate::util::u64_bytes;
use crate::util::u8_at;
use crate::util::ReadExt;
use crate::util::WriteExt;

verus! {

#[derive(Debug, Clone, Copy, PartialEq, Eq)]
pub struct Symbol {
    pub sym_name: u32,
    pub sym_info: u8,
    pub sym_other: u8,
    pub sym_shndx: u16,
    pub sym_value: u64,
    pub sym_size: u64,
}

impl Symbol {
    /// The number of bytes that one record takes.
    pub open spec fn encoded_len(class: Class) -> nat {
        match class {
            Class::Bits32 => 16,
            Class::Bits64 => 24,
        }
    }

    /// Whether every field can be written in the class without loss.
    pub open spec fn fits(&self, class: Class) -> bool {
        class == Class::Bits32 ==> self.sym_value <= u32::MAX && self.sym_size <= u32::MAX
    }

    /// The bytes of the record. In the 32-bit class value and size stand
    /// before the info byte and keep their low 32 bits; in the 64-bit class
    /// they stand last.
    pub open spec fn encoding(&self, class: Class, endian: Endianness) -> Seq<u8> {
        match class {
            Class::Bits32 => u32_bytes(endian, self.sym_name)
                + u32_bytes(endian, self.sym_value as u32) + u32_bytes(endian, self.sym_size as u32)
                + seq![self.sym_info] + seq![self.sym_other] + u16_bytes(endian, self.sym_shndx),
            Class::Bits64 => u32_bytes(endian, self.sym_name) + seq![self.sym_info]
                + seq![self.sym_other] + u16_bytes(endian, self.sym_shndx)
                + u64_bytes(endian, self.sym_value) + u64_bytes(endian, self.sym_size),
        }
    }

    /// The record that the bytes from `at` on hold.
    pub open spec fn decoding(class: Class, endian: Endianness, bytes: Seq<u8>, at: int) -> Self {
        match class {
            Class::Bits32 => Symbol {
                sym_name: u32_at(endian, bytes, at),
                sym_value: u32_at(endian, bytes, at + 4) as u64,
                sym_size: u32_at(endian, bytes, at + 8) as u64,
                sym_info: u8_at(bytes, at + 12),
                sym_other: u8_at(bytes, at + 13),
                sym_shndx: u16_at(endian, bytes, at + 14),
            },
            Class::Bits64 => Symbol {
                sym_name: u32_at(endian, bytes, at),
                sym_info: u8_at(bytes, at + 4),
                sym_other: u8_at(bytes, at + 5),
                sym_shndx: u16_at(endian, bytes, at + 6),
                sym_value: u64_at(endian, bytes, at + 8),
                sym_size: u64_at(endian, bytes, at + 16),
            },
        }
    }

    /// Reads one symbol record at the cursor. The read fails where fewer bytes
    /// than one record are left; the cursor then stands somewhere in what is
    /// left.
    pub fn read<R: ReadExt>(class: &Class, endian: &Endianness, buf: &mut R) -> (r: Result<
        Self,
        ElfError,
    >)
        ensures
            final(buf).bytes() == old(buf).bytes(),
            match r {
                Ok(h) => old(buf).cursor() + Self::encoded_len(*class) <= old(buf).bytes().len()
                    && h == Self::decoding(
                    *class,
                    *endian,
                    old(buf).bytes(),
                    old(buf).cursor() as int,
                ) && final(buf).cursor() == old(buf).cursor() + Self::encoded_len(*class),
                Err(e) => e == ElfError::TruncatedInput && old(buf).cursor() + Self::encoded_len(
                    *class,
                ) > old(buf).bytes().len(),
            },
    {
        let prog = match class {
            Class::Bits32 => Self {
                sym_name: buf.read_u32(endian)?,
                sym_value: buf.read_u32(endian)? as u64,
                sym_size: buf.read_u32(endian)? as u64,
                sym_info: buf.read_u8()?,
                sym_other: buf.read_u8()?,
                sym_shndx: buf.read_u16(endian)?,
            },
            Class::Bits64 => Self {
                sym_name: buf.read_u32(endian)?,
                sym_info: buf.read_u8()?,
                sym_other: buf.read_u8()?,
                sym_shndx: buf.read_u16(endian)?,
                sym_value: buf.read_u64(endian)?,
                sym_size: buf.read_u64(endian)?,
            },
        };
        Ok(prog)
    }

    /// The bytes of the record, as [`Symbol::write`] writes them.
    pub fn to_bytes(&self, class: &Class, endian: &Endianness) -> (raw: Vec<u8>)
        ensures
            raw@ == self.encoding(*class, *endian),
            raw@.len() == Self::encoded_len(*class),
    {
        let mut raw: Vec<u8> = Vec::new();
        proof {
            lemma_field_lengths(*endian);
        }
        match class {
            Class::Bits32 => {
                put_u32(&mut raw, endian, self.sym_name);
                put_u32(&mut raw, endian, #[verifier::truncate] (self.sym_value as u32));
                put_u32(&mut raw, endian, #[verifier::truncate] (self.sym_size as u32));
                put_u8(&mut raw, self.sym_info);
                put_u8(&mut raw, self.sym_other);
                put_u16(&mut raw, endian, self.sym_shndx);
            },
            Class::Bits64 => {
                put_u32(&mut raw, endian, self.sym_name);
                put_u8(&mut raw, self.sym_info);
                put_u8(&mut raw, self.sym_other);
                put_u16(&mut raw, endian, self.sym_shndx);
                put_u64(&mut raw, endian, self.sym_value);
                put_u64(&mut raw, endian, self.sym_size);
            },
        }
        assert(raw@ =~= self.encoding(*class, *endian));
        raw
    }

    /// Writes the record at the cursor and returns the number of bytes
    /// written. Nothing is written where the write fails.
    pub fn write<W: WriteExt>(&self, class: &Class, endian: &Endianness, buf: &mut W) -> (r:
        Result<usize, ElfError>)
        ensures
            match r {
                Ok(n) => n == Self::encoded_len(*class) && final(buf).bytes() == overlay(
                    old(buf).bytes(),
                    old(buf).cursor(),
                    self.encoding(*class, *endian),
                ) && final(buf).cursor() == old(buf).cursor() + n && final(buf).cursor() <= usize::MAX,
                Err(e) => e == ElfError::OffsetOverflow && old(buf).cursor() + Self::encoded_len(
                    *class,
                ) > usize::MAX && final(buf).bytes() == old(buf).bytes() && final(buf).cursor()
                    == old(buf).cursor(),
            },
    {
        let raw = self.to_bytes(class, endian);
        buf.write_all(raw.as_slice())
    }

    /// Reading back what was written gives the record again, in both classes
    /// and both byte orders, as long as every field fits the class.
    pub proof fn lemma_decode_encode(&self, class: Class, endian: Endianness)
        requires
            self.fits(class),
        ensures
            self.encoding(class, endian).len() == Self::encoded_len(class),
            Self::decoding(class, endian, self.encoding(class, endian), 0) == *self,
    {
        lemma_field_lengths(endian);
        let e = self.encoding(class, endian);
        match class {
            Class::Bits32 => {
                lemma_u32_field(endian, e, 0, self.sym_name);
                lemma_u32_field(endian, e, 4, self.sym_value as u32);
                lemma_u32_field(endian, e, 8, self.sym_size as u32);
                assert(e[12] == self.sym_info);
                assert(e[13] == self.sym_other);
                lemma_u16_field(endian, e, 14, self.sym_shndx);
            },
            Class::Bits64 => {
                lemma_u32_field(endian, e, 0, self.sym_name);
                assert(e[4] == self.sym_info);
                assert(e[5] == self.sym_other);
                lemma_u16_field(endian, e, 6, self.sym_shndx);
                lemma_u64_field(endian, e, 8, self.sym_value);
                lemma_u64_field(endian, e, 16, self.sym_size);
            },
        }
    }

    /// Writing what was read gives the bytes again, in both classes and both
    /// byte orders.
    pub proof fn lemma_encode_decode(class: Class, endian: Endianness, bytes: Seq<u8>, at: int)
        requires
            0 <= at,
            at + Self::encoded_len(class) <= bytes.len(),
        ensures
            Self::decoding(class, endian, bytes, at).fits(class),
            Self::decoding(class, endian, bytes, at).encoding(class, endian) == bytes.subrange(
                at,
                at + Self::encoded_len(class),
            ),
    {
        lemma_field_lengths(endian);
        match class {
            Class::Bits32 => {
                lemma_u32_bytes_of_at(endian, bytes, at);
                lemma_u32_bytes_of_at(endian, bytes, at + 4);
                lemma_u32_bytes_of_at(endian, bytes, at + 8);
                lemma_u16_bytes_of_at(endian, bytes, at + 14);
            },
            Class::Bits64 => {
                lemma_u32_bytes_of_at(endian, bytes, at);
                lemma_u16_bytes_of_at(endian, bytes, at + 6);
                lemma_u64_bytes_of_at(endian, bytes, at + 8);
                lemma_u64_bytes_of_at(endian, bytes, at + 16);
            },
        }
        assert(Self::decoding(class, endian, bytes, at).encoding(class, endian) =~= bytes.subrange(
            at,
            at + Self::encoded_len(class),
        ));
    }
}


impl Symbol {
    /// The name of the symbol: the string at the symbol's name offset in the
    /// body of the section `.strtab` of `obj`.
    pub fn get_name(&self, obj: &Object) -> (r: Result<String, ElfError>)
        ensures
            match find_name(obj@.section_names(), ".strtab"@) {
                Some(i) => match r {
                    Ok(name) => resolved_name(obj@.sections[i].1.body, self.sym_name as int)
                        == Ok::<Seq<char>, ElfError>(name@),
                    Err(e) => resolved_name(obj@.sections[i].1.body, self.sym_name as int)
                        == Err::<Seq<char>, ElfError>(e),
                },
                None => r matches Err(e) && e == ElfError::MissingRequiredSection(".strtab"),
            },
    {
        proof {
            obj.lemma_view_names();
            crate::tables::lemma_find_name(obj@.section_names(), ".strtab"@);
        }
        match obj.find_section(".strtab") {
            Some(strtab) => resolve_name(strtab.body.as_slice(), self.sym_name),
            None => Err(ElfError::MissingRequiredSection(".strtab")),
        }
    }
}


impl Symbol {
    /// Where the bytes from `at` on are those of a record whose fields fit
    /// the class, reading them gives that record.
    pub proof fn lemma_decoding_at(&self, class: Class, endian: Endianness, bytes: Seq<u8>, at: int)
        requires
            self.fits(class),
            0 <= at,
            at + Self::encoded_len(class) <= bytes.len(),
            bytes.subrange(at, at + Self::encoded_len(class)) == self.encoding(class, endian),
        ensures
            Self::decoding(class, endian, bytes, at) == *self,
    {
        lemma_field_lengths(endian);
        let e = self.encoding(class, endian);
        match class {
            Class::Bits32 => {
                lemma_u32_field_at(endian, bytes, at, e, 0, self.sym_name);
                lemma_u32_field_at(endian, bytes, at, e, 4, self.sym_value as u32);
                lemma_u32_field_at(endian, bytes, at, e, 8, self.sym_size as u32);
                assert(bytes.subrange(at, at + e.len())[12] == bytes[at + 12]);
                assert(e[12] == self.sym_info);
                assert(bytes.subrange(at, at + e.len())[13] == bytes[at + 13]);
                assert(e[13] == self.sym_other);
                lemma_u16_field_at(endian, bytes, at, e, 14, self.sym_shndx);
            },
            Class::Bits64 => {
                lemma_u32_field_at(endian, bytes, at, e, 0, self.sym_name);
                assert(bytes.subrange(at, at + e.len())[4] == bytes[at + 4]);
                assert(e[4] == self.sym_info);
                assert(bytes.subrange(at, at + e.len())[5] == bytes[at + 5]);
                assert(e[5] == self.sym_other);
                lemma_u16_field_at(endian, bytes, at, e, 6, self.sym_shndx);
                lemma_u64_field_at(endian, bytes, at, e, 8, self.sym_value);
                lemma_u64_field_at(endian, bytes, at, e, 16, self.sym_size);
            },
        }
    }
}

} // verus!
