use vstd::prelude::*;

verus! {

/// Section header table entry (unused)
pub const SHT_NULL: u32 = 0x0;

/// Program data
pub const SHT_PROGBITS: u32 = 0x1;

/// Symbol table
pub const SHT_SYMTAB: u32 = 0x2;

/// String table
pub const SHT_STRTAB: u32 = 0x3;

/// Relocation entries with addends
pub const SHT_RELA: u32 = 0x4;

/// Symbol hash table
pub const SHT_HASH: u32 = 0x5;

/// Dynamic linking information
pub const SHT_DYNAMIC: u32 = 0x6;

/// Notes
pub const SHT_NOTE: u32 = 0x7;

/// Program space with no data (bss)
pub const SHT_NOBITS: u32 = 0x8;

/// Relocation entries, no addends
pub const SHT_REL: u32 = 0x9;

/// Reserved
pub const SHT_SHLIB: u32 = 0x0A;

/// Dynamic linker symbol table
pub const SHT_DYNSYM: u32 = 0x0B;

/// Array of constructors
pub const SHT_INIT_ARRAY: u32 = 0x0E;

/// Array of destructors
pub const SHT_FINI_ARRAY: u32 = 0x0F;

/// Array of pre-constructors
pub const SHT_PREINIT_ARRAY: u32 = 0x10;

/// Section group
pub const SHT_GROUP: u32 = 0x11;

/// Extended section indices
pub const SHT_SYMTAB_SHNDX: u32 = 0x12;

/// Number of defined types.
pub const SHT_NUM: u32 = 0x13;

/// Start OS-specific.
pub const SHT_LOOS: u32 = 0x60000000;

} // verus!
