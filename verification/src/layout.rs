//! The layout rules of struct definitions: which gaps between members need
//! explicit padding, how a gap is filled, and when a struct is packed.
use vstd::prelude::*;
use vstd::arithmetic::div_mod::lemma_mod_decreases;
use vstd::arithmetic::div_mod::lemma_mod_is_zero;
use crate::btf::Btf;
use crate::types::BtfMember;

verus! {

/// How many bits the next padding field of a gap of `total` bits takes, if
/// its type has `at_most` bits: what is left over of the gap after whole
/// fields of that type, or a whole field if nothing is left over.
#[verifier::opaque]
pub open spec fn chip_bits(total: nat, at_most: nat) -> nat {
    if total % at_most == 0 {
        at_most
    } else {
        total % at_most
    }
}

/// The type of the next padding field of a gap of `gap` bits.
#[derive(Debug, Clone, Copy, PartialEq, Eq, Structural)]
pub enum PadType {
    Long,
    Int,
    Short,
    Char,
}

/// The widest type that a padding field of a gap of `gap` bits can have.
pub open spec fn pad_type(ptr_bits: nat, gap: nat) -> PadType {
    if ptr_bits > 32 && gap > 32 {
        PadType::Long
    } else if gap > 16 {
        PadType::Int
    } else if gap > 8 {
        PadType::Short
    } else {
        PadType::Char
    }
}

/// The number of bits of a padding type.
pub open spec fn pad_type_bits(ptr_bits: nat, ty: PadType) -> nat {
    match ty {
        PadType::Long => ptr_bits,
        PadType::Int => 32,
        PadType::Short => 16,
        PadType::Char => 8,
    }
}

/// The C name of a padding type.
pub open spec fn pad_type_name(ty: PadType) -> Seq<char> {
    match ty {
        PadType::Long => "long"@,
        PadType::Int => "int"@,
        PadType::Short => "short"@,
        PadType::Char => "char"@,
    }
}

/// The widths of the padding fields that fill a gap of `gap` bits, in the
/// order in which they are written.
pub open spec fn pad_widths(ptr_bits: nat, gap: nat) -> Seq<nat>
    decreases gap,
{
    if gap == 0 {
        Seq::empty()
    } else {
        let bits = chip_bits(gap, pad_type_bits(ptr_bits, pad_type(ptr_bits, gap)));
        if 0 < bits <= gap {
            seq![bits] + pad_widths(ptr_bits, (gap - bits) as nat)
        } else {
            Seq::empty()
        }
    }
}

/// A padding field is never empty and never wider than the gap it is taken
/// from.
pub proof fn lemma_chip_within_gap(ptr_bits: nat, gap: nat)
    requires
        gap > 0,
    ensures
        0 < chip_bits(gap, pad_type_bits(ptr_bits, pad_type(ptr_bits, gap))) <= gap,
{
    reveal(chip_bits);
    let at_most = pad_type_bits(ptr_bits, pad_type(ptr_bits, gap));
    assert(at_most > 0);
    lemma_mod_decreases(gap, at_most);
    if gap % at_most == 0 {
        lemma_mod_is_zero(gap, at_most);
    }
}

/// Whether an offset of `offset` bits is a multiple of `align_bits`. Only
/// zero is a multiple of zero.
pub open spec fn is_aligned(offset: nat, align_bits: nat) -> bool {
    if align_bits == 0 {
        offset == 0
    } else {
        offset % align_bits == 0
    }
}

/// The bit offset at which the member `m` ends: after its bits if it is a
/// bitfield, after its whole type if not.
pub open spec fn member_end(btf: &Btf, m: BtfMember) -> nat {
    if m.bit_size == 0 {
        m.bit_offset as nat + btf.spec_size_of(m.type_id as int) * 8
    } else {
        m.bit_offset as nat + m.bit_size as nat
    }
}

/// The bit offset that follows the first `k` members: zero at the start,
/// the end of the member before otherwise.
pub open spec fn offset_after(btf: &Btf, members: Seq<BtfMember>, k: nat) -> nat {
    if k == 0 {
        0
    } else {
        member_end(btf, members[k - 1])
    }
}

/// Whether one of the first `n` members that are no bitfields lies at an
/// offset that its type's alignment does not divide.
pub open spec fn has_misaligned_member(btf: &Btf, members: Seq<BtfMember>, n: nat) -> bool {
    exists|k: int|
        0 <= k < n && (#[trigger] members[k]).bit_size == 0 && !is_aligned(
            members[k].bit_offset as nat,
            btf.spec_align_of(members[k].type_id as int) * 8,
        )
}

/// Whether the struct `id` with the given size and members has to be marked
/// packed: its size is no multiple of its alignment, or a member that is no
/// bitfield is misaligned.
#[verifier::opaque]
pub open spec fn is_packed(btf: &Btf, id: int, sz: u32, members: Seq<BtfMember>) -> bool {
    !is_aligned(sz as nat, btf.spec_align_of(id)) || has_misaligned_member(
        btf,
        members,
        members.len(),
    )
}

/// The gap of bits that has to be filled with padding fields before the
/// member `m`, when the member before it ended at `offset`. A gap before a
/// member that is no bitfield needs no padding if it is smaller than the
/// member's alignment (1 byte in a packed struct): the compiler leaves that
/// gap by itself.
#[verifier::opaque]
pub open spec fn padding_gap(btf: &Btf, offset: nat, m: BtfMember, packed: bool) -> nat {
    if offset >= m.bit_offset {
        0
    } else {
        let gap = (m.bit_offset - offset) as nat;
        let align: nat = if packed {
            1
        } else {
            btf.spec_align_of(m.type_id as int)
        };
        if m.bit_size == 0 && gap < align * 8 {
            0
        } else {
            gap
        }
    }
}

/// How many bits the next padding field of a gap of `total` bits takes, if
/// its type has `at_most` bits.
pub fn chip_away_bits(total: u64, at_most: u64) -> (bits: u64)
    requires
        at_most > 0,
    ensures
        bits == chip_bits(total as nat, at_most as nat),
{
    reveal(chip_bits);
    if total % at_most == 0 {
        at_most
    } else {
        total % at_most
    }
}

} // verus!
