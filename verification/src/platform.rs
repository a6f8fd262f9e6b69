//! Facts about the machine the program runs on.
use vstd::prelude::*;

verus! {

broadcast use vstd::layout::layout_of_primitives,
    vstd::layout::layout_of_references_and_pointers,
    vstd::layout::layout_of_references_and_pointers_for_sized_types;

/// Size in bytes of a pointer to a single byte (what a `Box<u8>` holds).
/// It is the width of `usize`: 4 bytes on 32-bit targets, 8 on 64-bit ones.
pub fn pointer_size() -> (size: usize)
    ensures
        size as nat == vstd::layout::size_of::<usize>(),
        size * 8 == usize::BITS,
        size == 4 || size == 8,
{
    core::mem::size_of::<&u8>()
}

/// Whether the machine that runs the program stores the least significant
/// byte of a number first.
pub open spec fn host_is_little() -> bool {
    vstd::endian::endianness() is Little
}

/// The number one as `u16::to_le` gives it back on this machine. As std
/// documents it, `to_le` leaves a number unchanged on a little-endian
/// machine and swaps its two bytes on a big-endian one: the result is 1 on
/// a little-endian machine and 256 on a big-endian one.
#[verifier::external_body]
fn one_to_le() -> (r: u16)
    ensures
        r == if host_is_little() {
            1u16
        } else {
            256u16
        },
{
    1u16.to_le()
}

/// Whether the byte order that `one_le` shows is little-endian: the number
/// one, converted to little-endian, is still one exactly then.
pub fn is_little_endian(one_le: u16) -> (little: bool)
    requires
        one_le == 1 || one_le == 256,
    ensures
        little == (one_le == 1),
{
    one_le == 1
}

/// Whether this machine stores the least significant byte of a number
/// first, decided from what `u16::to_le` makes of the number one.
pub fn host_little_endian() -> (little: bool)
    ensures
        little == host_is_little(),
{
    let one_le = one_to_le();
    is_little_endian(one_le)
}

} // verus!
