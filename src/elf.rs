use vstd::prelude::*;

verus! {

/// Number of bytes in an identifier.
pub const SIZEOF_IDENT: usize = 16;

/// Loadable program segment.
pub const PT_LOAD: u32 = 1;

/// Relocation type that adds the load base to an addend.
pub const R_X86_64_RELATIVE: u32 = 8;

/// The four magic bytes that open an ELF image: 0x7f, 'E', 'L', 'F'.
pub const ELFMAG: [u8; 4] = [127, 69, 76, 70];

/// Whether `image` starts with the ELF magic.
pub open spec fn has_elf_magic(image: Seq<u8>) -> bool {
    image.len() >= 4 && image[0] == 127 && image[1] == 69 && image[2] == 76 && image[3] == 70
}

pub fn is_elf(image: &[u8]) -> (r: bool)
    ensures
        r == has_elf_magic(image@),
{
    image.len() >= 4 && image[0] == ELFMAG[0] && image[1] == ELFMAG[1] && image[2] == ELFMAG[2]
        && image[3] == ELFMAG[3]
}

/// Aligns `value` to a multiple of `align`: down when `flag` is set, else to
/// the next multiple strictly above.
pub fn align_value(value: u64, align: u64, flag: bool) -> (r: u64)
    requires
        align > 0,
        !flag ==> value + align <= u64::MAX,
    ensures
        flag ==> r == value - value % align,
        !flag ==> r == value - value % align + align,
{
    assert(value % align <= value) by (nonlinear_arith)
        requires
            align > 0,
    ;
    if flag {
        value - value % align
    } else {
        value - value % align + align
    }
}

} // verus!
