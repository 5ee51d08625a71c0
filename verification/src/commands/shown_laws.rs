//! What the results of the commands are seen to hold: each part, as it stands.
use crate::commands::check_compat::{CheckCompatError, CompatReport, Item, ItemView};
use crate::commands::compat_error::{
    ArrayError, ArrayErrorView, BlockError, BlockErrorView, BlockItemError, BlockItemErrorView,
    FieldError, FieldErrorView, FieldSetError, FieldSetErrorView,
};
use crate::commands::generate::{Step, StepView};
use crate::commands::mux::{iomux_named, AltMode, Daisy, Iomux, Mux, MuxArm, Pad, Pin};
use crate::ir_laws::{array_reads, offset_reads, reads};
use vstd::prelude::*;

verus! {

/// What an array error is seen to hold.
pub proof fn lemma_array_error_reads(e: ArrayError)
    ensures
        match (e, e@) {
            (ArrayError::Xor(l, r), ArrayErrorView::Xor(a, b)) => array_reads(l, a) && array_reads(
                r,
                b,
            ),
            (ArrayError::Len(l, r), ArrayErrorView::Len(a, b)) => a == l && b == r,
            (ArrayError::Stride(l, r), ArrayErrorView::Stride(a, b)) => a == l && b == r,
            _ => false,
        },
{
}

/// What a field error is seen to hold.
pub proof fn lemma_field_error_reads(e: FieldError)
    ensures
        match (e, e@) {
            (FieldError::Array(x), FieldErrorView::Array(y)) => y == x@,
            (FieldError::ArrayXor(l, r), FieldErrorView::ArrayXor(a, b)) => a == l && b == r,
            (FieldError::Description(l, r), FieldErrorView::Description(a, b)) => reads(l, a)
                && reads(r, b),
            (FieldError::Enum(l, r), FieldErrorView::Enum(a, b)) => reads(l, a) && reads(r, b),
            _ => false,
        },
{
}

/// What a fieldset error is seen to hold.
pub proof fn lemma_fieldset_error_reads(e: FieldSetError)
    ensures
        match (e, e@) {
            (FieldSetError::Bitsize(l, r), FieldSetErrorView::Bitsize(a, b)) => a == l && b == r,
            (FieldSetError::Extends(l, r), FieldSetErrorView::Extends(a, b)) => reads(l, a)
                && reads(r, b),
            (
                FieldSetError::Field { lhs_name, bit_size, bit_offset, error },
                FieldSetErrorView::Field { lhs_name: n, bit_size: s, bit_offset: o, error: x },
            ) => n == lhs_name@ && s == bit_size && offset_reads(bit_offset, o) && x == error@,
            (FieldSetError::LhsMissingfield(x), FieldSetErrorView::LhsMissingfield(y)) => y == x@,
            (FieldSetError::RhsMissingField(x), FieldSetErrorView::RhsMissingField(y)) => y == x@,
            (
                FieldSetError::NameMismatch { lhs, rhs, bit_size, bit_offset },
                FieldSetErrorView::NameMismatch { lhs: l, rhs: r, bit_size: s, bit_offset: o },
            ) => l == lhs@ && r == rhs@ && s == bit_size && offset_reads(bit_offset, o),
            (FieldSetError::Description(l, r), FieldSetErrorView::Description(a, b)) => reads(l, a)
                && reads(r, b),
            _ => false,
        },
{
}

/// What an item error is seen to hold.
pub proof fn lemma_item_error_reads(e: BlockItemError)
    ensures
        match (e, e@) {
            (BlockItemError::Description(l, r), BlockItemErrorView::Description(a, b)) => reads(
                l,
                a,
            ) && reads(r, b),
            (BlockItemError::ArrayXor(l, r), BlockItemErrorView::ArrayXor(a, b)) => a == l && b
                == r,
            (BlockItemError::Array(x), BlockItemErrorView::Array(y)) => y == x@,
            (BlockItemError::InnerXor(x), BlockItemErrorView::InnerXor(y)) => y == x,
            (
                BlockItemError::RegisterAccessMismatch(l, r),
                BlockItemErrorView::RegisterAccessMismatch(a, b),
            ) => a == l && b == r,
            (
                BlockItemError::RegisterSizeMismatch(l, r),
                BlockItemErrorView::RegisterSizeMismatch(a, b),
            ) => a == l && b == r,
            (BlockItemError::FieldSetXor(l, r), BlockItemErrorView::FieldSetXor(a, b)) => a == l
                && b == r,
            (BlockItemError::FieldSet(x), BlockItemErrorView::FieldSet(y)) => y == x@,
            (BlockItemError::Block(x), BlockItemErrorView::Block(y)) => *y == (*x)@,
            _ => false,
        },
{
}

/// What a block error is seen to hold.
pub proof fn lemma_block_error_reads(e: BlockError)
    ensures
        match (e, e@) {
            (BlockError::Description(l, r), BlockErrorView::Description(a, b)) => reads(l, a)
                && reads(r, b),
            (BlockError::Extends(l, r), BlockErrorView::Extends(a, b)) => reads(l, a) && reads(
                r,
                b,
            ),
            (BlockError::LhsMissingItem(x), BlockErrorView::LhsMissingItem(y)) => y == x@,
            (BlockError::RhsMissingItem(x), BlockErrorView::RhsMissingItem(y)) => y == x@,
            (
                BlockError::NameMismatch { lhs, rhs, byte_offset },
                BlockErrorView::NameMismatch { lhs: l, rhs: r, byte_offset: o },
            ) => l == lhs@ && r == rhs@ && o == byte_offset,
            (BlockError::Item(name, offset, error), BlockErrorView::Item(n, o, x)) => n == name@
                && o == offset && x == error@,
            _ => false,
        },
{
}

/// What an item that is compared is seen to hold.
pub proof fn lemma_compared_reads(x: Item)
    ensures
        match (x, x@) {
            (Item::Block(name, b), ItemView::Block(n, v)) => n == name@ && v == b@,
            (Item::Fieldset(name, f), ItemView::Fieldset(n, v)) => n == name@ && v == f@,
            _ => false,
        },
{
}

/// What a report is seen to hold.
pub proof fn lemma_report_reads(x: CompatReport)
    ensures
        x@.info.len() == x.info@.len(),
        forall|i: int| 0 <= i < x.info@.len() ==> #[trigger] x@.info[i] == x.info@[i]@,
        x@.errors.len() == x.errors@.len(),
        forall|i: int| 0 <= i < x.errors@.len() ==> #[trigger] x@.errors[i] == x.errors@[i]@,
        x@.ok == x.ok,
        x@.broken == x.broken,
{
}

/// What stops a check, in words.
pub proof fn lemma_check_words(e: CheckCompatError)
    ensures
        e is InvalidInclude ==> e.text() == "invalid include regex"@,
        e is InvalidExclude ==> e.text() == "invalid exclude regex"@,
        e is InvalidMain ==> e.text() == "invalid main regex"@,
        e is MainNotFound ==> e.text() == "Failed to find main"@,
        e is NoItems ==> e.text() == "found no items to include"@,
        e is Incompatible ==> e.text() == "Incompatibilities were detected"@,
{
}

/// A mux block is the one of its namespace, and its peripheral has the name of the
/// namespace in upper case.
pub proof fn lemma_iomux_words(lowered: Seq<char>, block: Iomux)
    ensures
        iomux_named(lowered) == Some(Iomux::Iomuxc) <==> lowered == "iomuxc"@,
        iomux_named(lowered) == Some(Iomux::IomuxcAon) <==> lowered == "iomuxc_aon"@,
        block is Iomuxc ==> block.text() == "IOMUXC"@,
        block is IomuxcAon ==> block.text() == "IOMUXC_AON"@,
{
    reveal_strlit("iomuxc");
    reveal_strlit("iomuxc_aon");
    assert("iomuxc"@.len() == 6 && "iomuxc_aon"@.len() == 10);
}

/// What a pad is seen to hold.
pub proof fn lemma_pad_reads(x: Pad)
    ensures
        x@.instance == x.instance@,
        x@.reg == x.reg@,
        x@.struct_name == x.struct_name@,
{
}

/// What a pin is seen to hold.
pub proof fn lemma_pin_reads(x: Pin)
    ensures
        x@.bank == x.bank@,
        x@.num == x.num@,
{
}

/// What a daisy setting is seen to hold.
pub proof fn lemma_daisy_reads(x: Daisy)
    ensures
        x@.fs_name == x.fs_name@,
        x@.enumm == x.enumm@,
        x@.variant == x.variant@,
{
}

/// What a mode is seen to hold.
pub proof fn lemma_mode_reads(x: AltMode)
    ensures
        x@.mux_enum == x.mux_enum@,
        x@.mux_variant == x.mux_variant@,
        x@.daisy is Some <==> x.daisy is Some,
        x.daisy is Some ==> x@.daisy->0 == x.daisy->0@,
{
}

/// What an arm is seen to hold.
pub proof fn lemma_arm_reads(x: MuxArm)
    ensures
        x@.mux_enum == x.mux_enum@,
        x@.mux_variant == x.mux_variant@,
        x@.daisy_block == x.daisy_block,
        x@.daisy_register == x.daisy_register@,
        x@.daisy_enum == x.daisy_enum@,
        x@.daisy_variant == x.daisy_variant@,
{
}

/// What the code of a pad is seen to hold.
pub proof fn lemma_mux_reads(x: Mux)
    ensures
        x@.gpio == x.gpio@,
        x@.mux_enum == x.mux_enum@,
        x@.iomux == x.iomux,
        x@.register == x.register@,
        x@.arms.len() == x.arms@.len(),
        forall|i: int| 0 <= i < x.arms@.len() ==> #[trigger] x@.arms[i] == x.arms@[i]@,
{
}

/// What a step is seen to hold.
pub proof fn lemma_step_reads(x: Step)
    ensures
        match (x, x@) {
            (Step::Print(a), StepView::Print(b)) => b == a@,
            (Step::Warn(a), StepView::Warn(b)) => b == a@,
            (Step::Mux(a), StepView::Mux(b)) => b == a@,
            (Step::Fault(a), StepView::Fault(b)) => b == a,
            (Step::DebugIr(a), StepView::DebugIr(b)) => b == a@,
            (Step::Lib(a), StepView::Lib(b)) => reads(a, b),
            (Step::DeviceX(a, d), StepView::DeviceX(b, e)) => reads(a, b) && e == d@,
            (Step::NoDevice, StepView::NoDevice) => true,
            _ => false,
        },
{
}

} // verus!
