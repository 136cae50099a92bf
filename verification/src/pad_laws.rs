//! Explicit padding fills a gap exactly: the widths of the padding fields
//! add up to the gap, and the text of the padding is the text of fields of
//! those widths.
use vstd::prelude::*;
use crate::decl::pad_field_text;
use crate::decl::padding_text;
use crate::layout::chip_bits;
use crate::layout::lemma_chip_within_gap;
use crate::layout::pad_type;
use crate::layout::pad_type_bits;
use crate::layout::pad_type_name;
use crate::layout::pad_widths;

verus! {

/// The sum of the widths.
pub open spec fn total_width(widths: Seq<nat>) -> nat
    decreases widths.len(),
{
    if widths.len() == 0 {
        0
    } else {
        widths[0] + total_width(widths.skip(1))
    }
}

/// Padding fields of the given widths for a gap of `gap` bits, each on a
/// line of its own at nesting level `lvl`, and each with the widest type
/// that fits what is left of the gap when its turn comes.
pub open spec fn pad_fields_text(ptr_bits: nat, gap: nat, widths: Seq<nat>, lvl: nat) -> Seq<char>
    decreases widths.len(),
{
    if widths.len() == 0 {
        Seq::empty()
    } else {
        pad_field_text(pad_type_name(pad_type(ptr_bits, gap)), widths[0], lvl) + pad_fields_text(
            ptr_bits,
            (gap - widths[0]) as nat,
            widths.skip(1),
            lvl,
        )
    }
}

/// The padding fields of a gap fill it: no field is empty, and their widths
/// add up to the gap.
pub proof fn law_padding_fills_the_gap(ptr_bits: nat, gap: nat)
    ensures
        total_width(pad_widths(ptr_bits, gap)) == gap,
        forall|i: int|
            0 <= i < pad_widths(ptr_bits, gap).len() ==> (#[trigger] pad_widths(ptr_bits, gap)[i])
                > 0,
    decreases gap,
{
    if gap > 0 {
        lemma_chip_within_gap(ptr_bits, gap);
        let bits = chip_bits(gap, pad_type_bits(ptr_bits, pad_type(ptr_bits, gap)));
        let rest = pad_widths(ptr_bits, (gap - bits) as nat);
        let widths = pad_widths(ptr_bits, gap);
        law_padding_fills_the_gap(ptr_bits, (gap - bits) as nat);
        assert(widths == seq![bits] + rest);
        assert(widths.skip(1) =~= rest);
        assert(widths[0] == bits);
        assert forall|i: int| 0 <= i < widths.len() implies (#[trigger] widths[i]) > 0 by {
            if i > 0 {
                assert(widths[i] == rest[i - 1]);
            }
        }
    }
}

/// The text of the padding of a gap is the text of padding fields of the
/// widths that fill the gap.
pub proof fn law_padding_is_written_in_its_widths(ptr_bits: nat, gap: nat, lvl: nat)
    ensures
        padding_text(ptr_bits, gap, lvl) == pad_fields_text(
            ptr_bits,
            gap,
            pad_widths(ptr_bits, gap),
            lvl,
        ),
    decreases gap,
{
    if gap > 0 {
        lemma_chip_within_gap(ptr_bits, gap);
        let bits = chip_bits(gap, pad_type_bits(ptr_bits, pad_type(ptr_bits, gap)));
        let rest = pad_widths(ptr_bits, (gap - bits) as nat);
        let widths = pad_widths(ptr_bits, gap);
        law_padding_is_written_in_its_widths(ptr_bits, (gap - bits) as nat, lvl);
        assert(widths == seq![bits] + rest);
        assert(widths.skip(1) =~= rest);
        assert(widths[0] == bits);
    }
}

} // verus!
