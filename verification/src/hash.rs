//! Hashes of hunk headers.
use crate::line::HunkHeader;
use std::collections::hash_map::DefaultHasher;
use std::hash::Hasher;
use vstd::bytes::{
    lemma_auto_spec_u32_to_from_le_bytes, spec_u32_from_le_bytes, spec_u32_to_le_bytes,
    u32_from_le_bytes, u32_to_le_bytes,
};
use vstd::prelude::*;
use vstd::std_specs::hash::DefaultHasherAdditionalSpecFns;

verus! {

/// The order in which the bytes of a number stand in memory.
#[derive(Debug, Clone, Copy, PartialEq, Eq, Structural)]
pub enum ByteOrder {
    /// the lowest first
    Little,
    /// the highest first
    Big,
}

/// The bytes of a number in one of the two orders.
pub open spec fn u32_bytes(x: u32, order: ByteOrder) -> Seq<u8> {
    match order {
        ByteOrder::Little => spec_u32_to_le_bytes(x),
        ByteOrder::Big => spec_u32_to_le_bytes(x).reverse(),
    }
}

/// Calls `u32::to_ne_bytes`, which gives the bytes of `x` in the order of the machine: the lowest
/// or the highest first.
#[verifier::external_body]
fn ne_bytes(x: u32) -> (r: Vec<u8>)
    ensures
        r@ == u32_bytes(x, ByteOrder::Little) || r@ == u32_bytes(x, ByteOrder::Big),
{
    x.to_ne_bytes().to_vec()
}

/// The order in which the bytes of the number one stand.
pub fn byte_order_of(one: &Vec<u8>) -> (r: ByteOrder)
    ensures
        r == (if one@ == u32_bytes(1, ByteOrder::Little) {
            ByteOrder::Little
        } else {
            ByteOrder::Big
        }),
        r == ByteOrder::Little <==> one@ == spec_u32_to_le_bytes(1),
{
    proof {
        lemma_auto_spec_u32_to_from_le_bytes();
        assert(spec_u32_to_le_bytes(1).len() == 4);
        assert(spec_u32_from_le_bytes(spec_u32_to_le_bytes(1)) == 1);
        assert(one@.len() == 4 ==> spec_u32_to_le_bytes(spec_u32_from_le_bytes(one@)) == one@);
    }
    if one.len() == 4 && u32_from_le_bytes(one.as_slice()) == 1 {
        ByteOrder::Little
    } else {
        ByteOrder::Big
    }
}

/// The byte order of the machine.
pub(crate) fn native_byte_order() -> ByteOrder {
    byte_order_of(&ne_bytes(1))
}

/// The bytes of `x` in an order.
fn bytes_in(x: u32, order: ByteOrder) -> (r: Vec<u8>)
    ensures
        r@ == u32_bytes(x, order),
{
    proof {
        lemma_auto_spec_u32_to_from_le_bytes();
        assert(spec_u32_to_le_bytes(x).len() == 4);
    }
    let bytes: Vec<u8> = u32_to_le_bytes(x);
    match order {
        ByteOrder::Little => bytes,
        ByteOrder::Big => {
            let r: Vec<u8> = vec![bytes[3], bytes[2], bytes[1], bytes[0]];
            assert(r@ =~= bytes@.reverse());
            r
        },
    }
}

/// The hash of the four numbers of a hunk header, the bytes of each in the given order.
pub open spec fn header_hash_of(header: HunkHeader, order: ByteOrder) -> u64 {
    DefaultHasher::spec_finish(
        seq![
            u32_bytes(header.old_start, order),
            u32_bytes(header.old_lines, order),
            u32_bytes(header.new_start, order),
            u32_bytes(header.new_lines, order),
        ],
    )
}

/// Hashes a hunk header, the bytes of its numbers in the given order.
pub fn header_hash_in(header: &HunkHeader, order: ByteOrder) -> (r: u64)
    ensures
        r == header_hash_of(*header, order),
        order == ByteOrder::Little ==> r == DefaultHasher::spec_finish(
            seq![
                spec_u32_to_le_bytes(header.old_start),
                spec_u32_to_le_bytes(header.old_lines),
                spec_u32_to_le_bytes(header.new_start),
                spec_u32_to_le_bytes(header.new_lines),
            ],
        ),
        order == ByteOrder::Big ==> r == DefaultHasher::spec_finish(
            seq![
                spec_u32_to_le_bytes(header.old_start).reverse(),
                spec_u32_to_le_bytes(header.old_lines).reverse(),
                spec_u32_to_le_bytes(header.new_start).reverse(),
                spec_u32_to_le_bytes(header.new_lines).reverse(),
            ],
        ),
{
    let mut hasher = DefaultHasher::new();
    hasher.write(bytes_in(header.old_start, order).as_slice());
    hasher.write(bytes_in(header.old_lines, order).as_slice());
    hasher.write(bytes_in(header.new_start, order).as_slice());
    hasher.write(bytes_in(header.new_lines, order).as_slice());
    assert(hasher@ =~= seq![
        u32_bytes(header.old_start, order),
        u32_bytes(header.old_lines, order),
        u32_bytes(header.new_start, order),
        u32_bytes(header.new_lines, order),
    ]);
    hasher.finish()
}

/// Hashes a hunk header as `std` does, the bytes of its numbers in the order of the machine. Which
/// of the two orders that is, no clause says.
pub fn header_hash(header: &HunkHeader) -> (r: u64)
    ensures
        r == header_hash_of(*header, ByteOrder::Little) || r == header_hash_of(
            *header,
            ByteOrder::Big,
        ),
{
    header_hash_in(header, native_byte_order())
}

/// A header is hashed by its four numbers, each in four bytes, in the order of its fields.
pub proof fn law_header_hash(header: HunkHeader)
    ensures
        header_hash_of(header, ByteOrder::Little) == DefaultHasher::spec_finish(
            seq![
                spec_u32_to_le_bytes(header.old_start),
                spec_u32_to_le_bytes(header.old_lines),
                spec_u32_to_le_bytes(header.new_start),
                spec_u32_to_le_bytes(header.new_lines),
            ],
        ),
        header_hash_of(header, ByteOrder::Big) == DefaultHasher::spec_finish(
            seq![
                spec_u32_to_le_bytes(header.old_start).reverse(),
                spec_u32_to_le_bytes(header.old_lines).reverse(),
                spec_u32_to_le_bytes(header.new_start).reverse(),
                spec_u32_to_le_bytes(header.new_lines).reverse(),
            ],
        ),
{
}

} // verus!
