//! Checks and sizes for loading a user program from an ELF file.
use vstd::prelude::*;

verus! {

/// Size of a page.
pub const ELF_PAGE_SIZE: u64 = 0x1000;

/// `e_machine` of x86-64.
pub const EM_X86_64: u16 = 62;

/// `e_type` of an executable file.
pub const ET_EXEC: u16 = 2;

/// How many pages `n` bytes take.
pub fn get_pages(n: u64) -> (r: u64)
    ensures
        r == (n + 4095) / 4096,
{
    if n % ELF_PAGE_SIZE != 0 {
        1 + n / ELF_PAGE_SIZE
    } else {
        n / ELF_PAGE_SIZE
    }
}

/// Why an ELF header is refused.
#[derive(Clone, Copy, PartialEq, Eq, Debug, Structural)]
pub enum ElfCheckError {
    /// The file does not start with the ELF magic number.
    InvalidMagic,
    /// The file is not an x86-64 executable.
    UnsupportedTarget,
}

/// The ELF magic number opens `e_ident`.
pub open spec fn has_elf_magic(e_ident: Seq<u8>) -> bool {
    e_ident[0] == 0x7F && e_ident[1] == 0x45 && e_ident[2] == 0x4C && e_ident[3] == 0x46
}

/// Whether an ELF header is that of an x86-64 executable: the magic number
/// is checked first, then the machine and the file type.
pub fn check_elf64_x64(e_ident: &[u8; 16], e_machine: u16, e_type: u16) -> (r: Result<(), ElfCheckError>)
    ensures
        r == (if !has_elf_magic(e_ident@) {
            Err(ElfCheckError::InvalidMagic)
        } else if e_machine != EM_X86_64 || e_type != ET_EXEC {
            Err(ElfCheckError::UnsupportedTarget)
        } else {
            Ok(())
        }),
{
    if e_ident[0] != 0x7F || e_ident[1] != 0x45 || e_ident[2] != 0x4C || e_ident[3] != 0x46 {
        return Err(ElfCheckError::InvalidMagic);
    }
    if e_machine != EM_X86_64 || e_type != ET_EXEC {
        return Err(ElfCheckError::UnsupportedTarget);
    }
    Ok(())
}

} // verus!
