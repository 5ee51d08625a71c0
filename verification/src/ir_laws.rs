//! What the parts of a register map are seen to hold: each field, as it stands.
use crate::ir::{
    Array, ArrayView, BitOffset, BitOffsetView, Block, BlockItem, BlockItemInner,
    BlockItemInnerView, Device, Enum, EnumVariant, Field, FieldSet, Interrupt, Peripheral, IR,
};
use vstd::prelude::*;

verus! {

/// Whether an optional text has these characters.
pub open spec fn reads(s: Option<String>, t: Option<Seq<char>>) -> bool {
    match (s, t) {
        (Some(a), Some(b)) => a@ == b,
        (None, None) => true,
        _ => false,
    }
}

/// Whether an array is seen as it stands.
pub open spec fn array_reads(a: Array, v: ArrayView) -> bool {
    match (a, v) {
        (Array::Regular(x), ArrayView::Regular(y)) => x.len == y.len && x.stride == y.stride,
        (Array::Cursed(x), ArrayView::Cursed(y)) => x.offsets@ == y,
        _ => false,
    }
}

/// Whether an optional array is seen as it stands.
pub open spec fn opt_array_reads(a: Option<Array>, v: Option<ArrayView>) -> bool {
    match (a, v) {
        (Some(x), Some(y)) => array_reads(x, y),
        (None, None) => true,
        _ => false,
    }
}

/// Whether a bit offset is seen as it stands.
pub open spec fn offset_reads(o: BitOffset, v: BitOffsetView) -> bool {
    match (o, v) {
        (BitOffset::Regular(x), BitOffsetView::Regular(y)) => x == y,
        (BitOffset::Cursed(x), BitOffsetView::Cursed(y)) => x@ == y,
        _ => false,
    }
}

/// Whether an inner part is seen as it stands.
pub open spec fn inner_reads(i: BlockItemInner, v: BlockItemInnerView) -> bool {
    match (i, v) {
        (BlockItemInner::Block(x), BlockItemInnerView::Block { block }) => x.block@ == block,
        (
            BlockItemInner::Register(x),
            BlockItemInnerView::Register { access, bit_size, fieldset },
        ) => x.access == access && x.bit_size == bit_size && reads(x.fieldset, fieldset),
        _ => false,
    }
}

/// An item is seen with all that it holds.
pub proof fn lemma_item_reads(x: BlockItem)
    ensures
        x@.name == x.name@,
        reads(x.description, x@.description),
        opt_array_reads(x.array, x@.array),
        x@.byte_offset == x.byte_offset,
        inner_reads(x.inner, x@.inner),
{
}

/// A block is seen with all that it holds.
pub proof fn lemma_block_reads(x: Block)
    ensures
        reads(x.extends, x@.extends),
        reads(x.description, x@.description),
        x@.items.len() == x.items@.len(),
        forall|i: int| 0 <= i < x.items@.len() ==> #[trigger] x@.items[i] == x.items@[i]@,
{
}

/// A field is seen with all that it holds.
pub proof fn lemma_field_reads(x: Field)
    ensures
        x@.name == x.name@,
        reads(x.description, x@.description),
        offset_reads(x.bit_offset, x@.bit_offset),
        x@.bit_size == x.bit_size,
        opt_array_reads(x.array, x@.array),
        reads(x.enumm, x@.enumm),
{
}

/// A fieldset is seen with all that it holds.
pub proof fn lemma_fieldset_reads(x: FieldSet)
    ensures
        reads(x.extends, x@.extends),
        reads(x.description, x@.description),
        x@.bit_size == x.bit_size,
        x@.fields.len() == x.fields@.len(),
        forall|i: int| 0 <= i < x.fields@.len() ==> #[trigger] x@.fields[i] == x.fields@[i]@,
{
}

/// A variant is seen with all that it holds.
pub proof fn lemma_variant_reads(x: EnumVariant)
    ensures
        x@.name == x.name@,
        reads(x.description, x@.description),
        x@.value == x.value,
{
}

/// An enum is seen with all that it holds.
pub proof fn lemma_enum_reads(x: Enum)
    ensures
        reads(x.description, x@.description),
        x@.bit_size == x.bit_size,
        x@.variants.len() == x.variants@.len(),
        forall|i: int| 0 <= i < x.variants@.len() ==> #[trigger] x@.variants[i] == x.variants@[i]@,
{
}

/// A peripheral is seen with all that it holds.
pub proof fn lemma_peripheral_reads(x: Peripheral)
    ensures
        x@.name == x.name@,
        reads(x.description, x@.description),
        x@.base_address == x.base_address,
        reads(x.block, x@.block),
{
}

/// An interrupt is seen with all that it holds.
pub proof fn lemma_interrupt_reads(x: Interrupt)
    ensures
        x@.name == x.name@,
        reads(x.description, x@.description),
        x@.value == x.value,
{
}

/// A device is seen with all that it holds.
pub proof fn lemma_device_reads(x: Device)
    ensures
        x@.peripherals.len() == x.peripherals@.len(),
        forall|i: int|
            0 <= i < x.peripherals@.len() ==> #[trigger] x@.peripherals[i] == x.peripherals@[i]@,
        x@.interrupts.len() == x.interrupts@.len(),
        forall|i: int|
            0 <= i < x.interrupts@.len() ==> #[trigger] x@.interrupts[i] == x.interrupts@[i]@,
{
}

/// A register map is seen with all that it holds.
pub proof fn lemma_ir_reads(x: IR)
    ensures
        x@.devices == x.devices@,
        x@.blocks == x.blocks@,
        x@.fieldsets == x.fieldsets@,
        x@.enums == x.enums@,
{
}

} // verus!
