//! Entries of `/proc/self/pagemap`: where a virtual page lies in memory.

use vstd::prelude::*;

use crate::config::PAGE_SIZE;

verus! {

/// Bytes in an entry.
pub const ENTRY_SIZE: u64 = 8;

/// An entry's number, from its bytes in little-endian order.
pub open spec fn entry_value(bytes: Seq<u8>) -> int {
    bytes[0] + 0x100 * bytes[1] + 0x1_0000 * bytes[2] + 0x100_0000 * bytes[3] + 0x1_0000_0000
        * bytes[4] + 0x100_0000_0000 * bytes[5] + 0x1_0000_0000_0000 * bytes[6]
        + 0x100_0000_0000_0000 * bytes[7]
}

/// The page is in memory: the entry's highest bit.
pub open spec fn is_present(entry: int) -> bool {
    entry >= 0x8000_0000_0000_0000
}

/// The number of the page's frame: the entry's lower 55 bits.
pub open spec fn frame(entry: int) -> int {
    entry % 0x80_0000_0000_0000
}

/// The addresses in a frame can be represented.
pub open spec fn is_addressable(frame: int) -> bool {
    frame <= usize::MAX as int / PAGE_SIZE as int
}

/// The position of the entry for `vaddr`, in bytes.
pub open spec fn entry_position(vaddr: usize) -> int {
    vaddr as int / PAGE_SIZE as int * ENTRY_SIZE
}

/// The physical address of `vaddr`, whose pagemap entry is `bytes`.
pub open spec fn translated(bytes: Seq<u8>, vaddr: usize) -> Option<int> {
    let entry = entry_value(bytes);
    if is_present(entry) {
        Some(frame(entry) * PAGE_SIZE + vaddr as int % PAGE_SIZE as int)
    } else {
        None
    }
}

/// Every address in the page that an entry stands for can be represented.
pub open spec fn can_translate(bytes: Seq<u8>) -> bool {
    is_present(entry_value(bytes)) ==> is_addressable(frame(entry_value(bytes)))
}

/// Finds the position of the entry for `vaddr`, in bytes.
pub fn pagemap_offset(vaddr: usize) -> (offset: u64)
    ensures
        offset == entry_position(vaddr),
        offset == vaddr as int / PAGE_SIZE as int * ENTRY_SIZE,
{
    (vaddr / PAGE_SIZE) as u64 * ENTRY_SIZE
}

/// Puts an entry's bytes together.
fn decode_entry(bytes: &[u8; 8]) -> (entry: u64)
    ensures
        entry == entry_value(bytes@),
{
    bytes[0] as u64 + 0x100 * bytes[1] as u64 + 0x1_0000 * bytes[2] as u64 + 0x100_0000
        * bytes[3] as u64 + 0x1_0000_0000 * bytes[4] as u64 + 0x100_0000_0000 * bytes[5] as u64
        + 0x1_0000_0000_0000 * bytes[6] as u64 + 0x100_0000_0000_0000 * bytes[7] as u64
}

/// Whether the address that an entry stands for can be represented.
pub fn translatable(bytes: &[u8; 8]) -> (fits: bool)
    ensures
        fits == (is_present(entry_value(bytes@)) ==> is_addressable(frame(entry_value(bytes@)))),
        fits == can_translate(bytes@),
{
    let entry: u64 = decode_entry(bytes);
    entry < 0x8000_0000_0000_0000 || entry % 0x80_0000_0000_0000 <= usize::MAX as u64
        / PAGE_SIZE as u64
}

/// Looks `vaddr` up in its pagemap entry.
fn translate(entry: u64, vaddr: usize) -> (paddr: Option<usize>)
    requires
        is_present(entry as int) ==> is_addressable(frame(entry as int)),
    ensures
        paddr is Some <==> is_present(entry as int),
        paddr matches Some(paddr) ==> paddr == frame(entry as int) * PAGE_SIZE + vaddr as int
            % PAGE_SIZE as int,
{
    proof {
        assert(entry & (1u64 << 63) == 0 <==> entry < 0x8000_0000_0000_0000) by (bit_vector);
        assert(entry & 0x007F_FFFF_FFFF_FFFF == entry % 0x80_0000_0000_0000) by (bit_vector);
    }
    if entry & (1u64 << 63) == 0 {
        return None;
    }
    let pfn: u64 = entry & 0x007F_FFFF_FFFF_FFFF;
    Some(pfn as usize * PAGE_SIZE + vaddr % PAGE_SIZE)
}

/// The physical address of `vaddr`, whose pagemap entry is `bytes`; none where
/// the page is not in memory.
pub fn virtual_to_physical(bytes: &[u8; 8], vaddr: usize) -> (paddr: Option<usize>)
    requires
        is_present(entry_value(bytes@)) ==> is_addressable(frame(entry_value(bytes@))),
    ensures
        paddr is Some <==> translated(bytes@, vaddr) is Some,
        paddr matches Some(paddr) ==> translated(bytes@, vaddr) == Some(paddr as int),
        paddr is Some <==> is_present(entry_value(bytes@)),
        paddr matches Some(paddr) ==> paddr == frame(entry_value(bytes@)) * PAGE_SIZE + vaddr as int
            % PAGE_SIZE as int,
{
    translate(decode_entry(bytes), vaddr)
}

/// A translation keeps the offset within the page, and the address lies in the
/// frame that the entry names.
pub proof fn translation_keeps_offset(bytes: Seq<u8>, vaddr: usize, paddr: usize)
    requires
        bytes.len() == 8,
        paddr == frame(entry_value(bytes)) * PAGE_SIZE + vaddr as int % (PAGE_SIZE as int),
    ensures
        paddr % PAGE_SIZE == vaddr % PAGE_SIZE,
        paddr as int / (PAGE_SIZE as int) == frame(entry_value(bytes)),
{
}

/// Byte `i` of a 64-bit number, counted from its lower end.
pub open spec fn byte_of(entry: u64, i: int) -> u8 {
    ((entry >> (8 * i) as u64) & 0xff) as u8
}

/// The bytes of a 64-bit number, the lowest first.
pub open spec fn little_endian(entry: u64) -> Seq<u8> {
    Seq::new(8, |i: int| byte_of(entry, i))
}

/// A 64-bit number is read back from its bytes.
pub proof fn entry_read_back(entry: u64)
    ensures
        entry_value(little_endian(entry)) == entry,
{
    let bytes = little_endian(entry);
    assert(bytes[0] as u64 == entry & 0xff && bytes[1] as u64 == (entry >> 8) & 0xff
        && bytes[2] as u64 == (entry >> 16) & 0xff && bytes[3] as u64 == (entry >> 24) & 0xff
        && bytes[4] as u64 == (entry >> 32) & 0xff && bytes[5] as u64 == (entry >> 40) & 0xff
        && bytes[6] as u64 == (entry >> 48) & 0xff && bytes[7] as u64 == (entry >> 56) & 0xff) by {
        assert((entry >> 0) & 0xff <= 0xff && (entry >> 8) & 0xff <= 0xff && (entry >> 16) & 0xff
            <= 0xff && (entry >> 24) & 0xff <= 0xff && (entry >> 32) & 0xff <= 0xff && (entry
            >> 40) & 0xff <= 0xff && (entry >> 48) & 0xff <= 0xff && (entry >> 56) & 0xff <= 0xff
            && (entry >> 0) & 0xff == entry & 0xff) by (bit_vector)
            requires
                0 <= entry,
        ;
    }
    assert(entry == (entry & 0xff) + 0x100 * ((entry >> 8) & 0xff) + 0x1_0000 * ((entry >> 16)
        & 0xff) + 0x100_0000 * ((entry >> 24) & 0xff) + 0x1_0000_0000 * ((entry >> 32) & 0xff)
        + 0x100_0000_0000 * ((entry >> 40) & 0xff) + 0x1_0000_0000_0000 * ((entry >> 48) & 0xff)
        + 0x100_0000_0000_0000 * ((entry >> 56) & 0xff)) by (bit_vector);
}

/// An entry yields an address exactly if its bit 63 is set, whatever its bits
/// 55 to 62 are. The address lies in the frame that the lower 55 bits number,
/// as far into its page as the virtual address.
pub proof fn translation_exact(entry: u64, vaddr: usize)
    ensures
        translated(little_endian(entry), vaddr) is Some <==> entry & (1u64 << 63) != 0,
        translated(little_endian(entry), vaddr) matches Some(paddr) ==> {
            &&& paddr % 4096 == vaddr as int % 4096
            &&& paddr / 4096 == entry & 0x007F_FFFF_FFFF_FFFF
        },
{
    entry_read_back(entry);
    assert(entry & (1u64 << 63) == 0 <==> entry < 0x8000_0000_0000_0000) by (bit_vector);
    assert(entry & 0x007F_FFFF_FFFF_FFFF == entry % 0x80_0000_0000_0000) by (bit_vector);
}

/// Entries that agree in bit 63 and in the lower 55 bits translate alike, and
/// are both or neither within reach.
pub proof fn flags_do_not_matter(one: u64, other: u64, vaddr: usize)
    requires
        one & (1u64 << 63) == other & (1u64 << 63),
        one & 0x007F_FFFF_FFFF_FFFF == other & 0x007F_FFFF_FFFF_FFFF,
    ensures
        translated(little_endian(one), vaddr) == translated(little_endian(other), vaddr),
        can_translate(little_endian(one)) == can_translate(little_endian(other)),
{
    entry_read_back(one);
    entry_read_back(other);
    assert(one & (1u64 << 63) == 0 <==> one < 0x8000_0000_0000_0000) by (bit_vector);
    assert(other & (1u64 << 63) == 0 <==> other < 0x8000_0000_0000_0000) by (bit_vector);
    assert(one & 0x007F_FFFF_FFFF_FFFF == one % 0x80_0000_0000_0000) by (bit_vector);
    assert(other & 0x007F_FFFF_FFFF_FFFF == other % 0x80_0000_0000_0000) by (bit_vector);
}

/// An entry can be translated exactly if it yields no address, or one that
/// fits a `usize` together with the rest of its page.
pub proof fn translatable_exact(entry: u64)
    ensures
        can_translate(little_endian(entry)) <==> (entry & (1u64 << 63) == 0 || (entry
            & 0x007F_FFFF_FFFF_FFFF) * 4096 + 4095 <= usize::MAX),
{
    entry_read_back(entry);
    assert(entry & (1u64 << 63) == 0 <==> entry < 0x8000_0000_0000_0000) by (bit_vector);
    assert(entry & 0x007F_FFFF_FFFF_FFFF == entry % 0x80_0000_0000_0000) by (bit_vector);
    lemma_addressable(frame(entry as int));
}

/// A frame whose first address can be represented is representable whole.
proof fn lemma_addressable(frame: int)
    ensures
        is_addressable(frame) <==> frame * 4096 + 4095 <= usize::MAX,
{
    if usize::MAX == 0xffff_ffff {
        assert(is_addressable(frame) <==> frame <= 0xf_ffff);
    } else {
        assert(usize::MAX == 0xffff_ffff_ffff_ffff);
        assert(is_addressable(frame) <==> frame <= 0xf_ffff_ffff_ffff);
    }
}

/// The entries are eight bytes each and follow one another as the pages do:
/// all addresses of a page share one, and the next page has the next.
pub proof fn entries_follow_pages(vaddr: usize)
    ensures
        entry_position(vaddr) % 8 == 0,
        entry_position(vaddr) / 8 * 4096 <= vaddr < (entry_position(vaddr) / 8 + 1) * 4096,
{
}

} // verus!
