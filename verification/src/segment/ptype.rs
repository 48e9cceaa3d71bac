use vstd::prelude::*;

verus! {

/// Program header table entry unused.
pub const PT_NULL: u32 = 0x00000000;

/// Loadable segment.
pub const PT_LOAD: u32 = 0x00000001;

/// Dynamic linking information.
pub const PT_DYNAMIC: u32 = 0x00000002;

/// Interpreter information.
pub const PT_INTERP: u32 = 0x00000003;

/// Auxiliary information.
pub const PT_NOTE: u32 = 0x00000004;

/// Reserved.
pub const PT_SHLIB: u32 = 0x00000005;

/// Segment containing program header table itself.
pub const PT_PHDR: u32 = 0x00000006;

/// Thread-Local Storage template.
pub const PT_TLS: u32 = 0x00000007;

/// Start of the range that is reserved for the operating system.
pub const PT_LOOS: u32 = 0x60000000;

/// End of the range that is reserved for the operating system.
pub const PT_HIOS: u32 = 0x6FFFFFFF;

/// Start of the range that is reserved for the processor.
pub const PT_LOPROC: u32 = 0x70000000;

/// End of the range that is reserved for the processor.
pub const PT_HIPROC: u32 = 0x7FFFFFFF;

} // verus!
