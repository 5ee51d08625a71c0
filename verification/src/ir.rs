//! The intermediate representation of a chip's register map.
use crate::name_map::{Entries, NameMap};
use crate::text::{copy_opt, opt_chars};
use vstd::prelude::*;

verus! {

/// The views of a sequence of values.
pub open spec fn views<T: View>(s: Seq<T>) -> Seq<T::V> {
    s.map_values(|x: T| x@)
}

/// The view of an optional value.
pub open spec fn opt_view<T: View>(x: Option<T>) -> Option<T::V> {
    match x {
        Some(v) => Some(v@),
        None => None,
    }
}

/// A value that can be copied in full.
pub trait Duplicate: View + Sized {
    /// A copy that holds the same.
    fn duplicate(&self) -> (r: Self)
        ensures
            r@ == self@,
    ;
}

/// Copies each value of a list.
pub fn duplicate_all<T: Duplicate>(v: &Vec<T>) -> (r: Vec<T>)
    ensures
        views(r@) == views(v@),
{
    let mut r: Vec<T> = Vec::new();
    let mut i: usize = 0;
    while i < v.len()
        invariant
            i <= v@.len(),
            r@.len() == i,
            forall|j: int| 0 <= j < i ==> #[trigger] r@[j]@ == v@[j]@,
        decreases v@.len() - i,
    {
        r.push(v[i].duplicate());
        i += 1;
    }
    assert(views(r@) =~= views(v@));
    r
}

/// Copies an optional value.
pub fn duplicate_opt<T: Duplicate>(x: &Option<T>) -> (r: Option<T>)
    ensures
        opt_view(r) == opt_view(*x),
{
    match x {
        Some(v) => Some(v.duplicate()),
        None => None,
    }
}

/// How a register can be accessed.
#[derive(Clone, Copy, Debug, PartialEq, Eq, Structural)]
pub enum Access {
    ReadWrite,
    Read,
    Write,
}

/// An array at evenly spaced places.
#[derive(Clone, Copy, Debug, PartialEq, Eq, Structural)]
pub struct RegularArray {
    pub len: u32,
    pub stride: u32,
}

/// An array whose places are listed one by one.
#[derive(Debug, PartialEq, Eq)]
pub struct CursedArray {
    pub offsets: Vec<u32>,
}

/// The array that an item or a field is repeated in.
#[derive(Debug, PartialEq, Eq)]
pub enum Array {
    Regular(RegularArray),
    Cursed(CursedArray),
}

/// What an array holds.
#[verifier::ext_equal]
pub enum ArrayView {
    Regular(RegularArray),
    Cursed(Seq<u32>),
}

impl View for Array {
    type V = ArrayView;

    open spec fn view(&self) -> ArrayView {
        match self {
            Array::Regular(a) => ArrayView::Regular(*a),
            Array::Cursed(a) => ArrayView::Cursed(a.offsets@),
        }
    }
}

impl ArrayView {
    /// How many elements the array has.
    pub open spec fn len(self) -> nat {
        match self {
            ArrayView::Regular(a) => a.len as nat,
            ArrayView::Cursed(offsets) => offsets.len(),
        }
    }
}

impl Array {
    /// How many elements the array has.
    pub fn len(&self) -> (r: usize)
        ensures
            r == self@.len(),
    {
        match self {
            Array::Regular(a) => a.len as usize,
            Array::Cursed(a) => a.offsets.len(),
        }
    }
}

impl Duplicate for Array {
    fn duplicate(&self) -> (r: Self) {
        match self {
            Array::Regular(a) => Array::Regular(*a),
            Array::Cursed(a) => {
                let mut offsets: Vec<u32> = Vec::new();
                let mut i: usize = 0;
                while i < a.offsets.len()
                    invariant
                        i <= a.offsets@.len(),
                        offsets@ == a.offsets@.take(i as int),
                    decreases a.offsets@.len() - i,
                {
                    offsets.push(a.offsets[i]);
                    i += 1;
                    assert(offsets@ =~= a.offsets@.take(i as int));
                }
                assert(offsets@ =~= a.offsets@);
                Array::Cursed(CursedArray { offsets })
            },
        }
    }
}

/// A run of bits, both ends included.
#[derive(Clone, Copy, Debug, PartialEq, Eq, Structural)]
pub struct BitRange {
    pub first: u32,
    pub last: u32,
}

/// Where the bits of a field are.
#[derive(Debug, PartialEq, Eq)]
pub enum BitOffset {
    /// One run that begins at this bit.
    Regular(u32),
    /// Several runs.
    Cursed(Vec<BitRange>),
}

/// What a bit offset holds.
#[verifier::ext_equal]
pub enum BitOffsetView {
    Regular(u32),
    Cursed(Seq<BitRange>),
}

impl View for BitOffset {
    type V = BitOffsetView;

    open spec fn view(&self) -> BitOffsetView {
        match self {
            BitOffset::Regular(offset) => BitOffsetView::Regular(*offset),
            BitOffset::Cursed(ranges) => BitOffsetView::Cursed(ranges@),
        }
    }
}

/// The least first bit of the runs, or 0 if there is none.
pub open spec fn least_first(ranges: Seq<BitRange>) -> u32
    decreases ranges.len(),
{
    if ranges.len() == 0 {
        0
    } else if ranges.len() == 1 {
        ranges[0].first
    } else if ranges.last().first < least_first(ranges.drop_last()) {
        ranges.last().first
    } else {
        least_first(ranges.drop_last())
    }
}

impl BitOffsetView {
    /// The lowest bit at which a run begins.
    pub open spec fn min_offset(self) -> u32 {
        match self {
            BitOffsetView::Regular(offset) => offset,
            BitOffsetView::Cursed(ranges) => least_first(ranges),
        }
    }
}

impl BitOffset {
    /// The lowest bit at which a run begins.
    pub fn min_offset(&self) -> (r: u32)
        ensures
            r == self@.min_offset(),
    {
        match self {
            BitOffset::Regular(offset) => *offset,
            BitOffset::Cursed(ranges) => {
                let mut least: u32 = 0;
                let mut i: usize = 0;
                while i < ranges.len()
                    invariant
                        i <= ranges@.len(),
                        least == least_first(ranges@.take(i as int)),
                    decreases ranges@.len() - i,
                {
                    if i == 0 || ranges[i].first < least {
                        least = ranges[i].first;
                    }
                    assert(ranges@.take(i + 1).drop_last() =~= ranges@.take(i as int));
                    i += 1;
                }
                assert(ranges@.take(i as int) =~= ranges@);
                least
            },
        }
    }

    /// Whether two bit offsets are the same.
    pub fn same(&self, other: &BitOffset) -> (r: bool)
        ensures
            r == (self@ == other@),
    {
        match (self, other) {
            (BitOffset::Regular(a), BitOffset::Regular(b)) => *a == *b,
            (BitOffset::Cursed(a), BitOffset::Cursed(b)) => {
                if a.len() != b.len() {
                    return false;
                }
                let mut i: usize = 0;
                while i < a.len()
                    invariant
                        i <= a@.len(),
                        a@.len() == b@.len(),
                        self@ == BitOffsetView::Cursed(a@),
                        other@ == BitOffsetView::Cursed(b@),
                        forall|j: int| 0 <= j < i ==> a@[j] == b@[j],
                    decreases a@.len() - i,
                {
                    if a[i].first != b[i].first || a[i].last != b[i].last {
                        assert(a@[i as int] != b@[i as int]);
                        return false;
                    }
                    i += 1;
                }
                assert(a@ =~= b@);
                true
            },
            _ => false,
        }
    }
}

impl Duplicate for BitOffset {
    fn duplicate(&self) -> (r: Self) {
        match self {
            BitOffset::Regular(offset) => BitOffset::Regular(*offset),
            BitOffset::Cursed(ranges) => {
                let mut copy: Vec<BitRange> = Vec::new();
                let mut i: usize = 0;
                while i < ranges.len()
                    invariant
                        i <= ranges@.len(),
                        copy@ == ranges@.take(i as int),
                    decreases ranges@.len() - i,
                {
                    copy.push(ranges[i]);
                    i += 1;
                    assert(copy@ =~= ranges@.take(i as int));
                }
                assert(copy@ =~= ranges@);
                BitOffset::Cursed(copy)
            },
        }
    }
}

/// A register of a block.
#[derive(Debug)]
pub struct Register {
    pub access: Access,
    pub bit_size: u32,
    pub fieldset: Option<String>,
}

/// A block inside a block, by its name.
#[derive(Debug)]
pub struct BlockItemBlock {
    pub block: String,
}

/// What stands at an item of a block.
#[derive(Debug)]
pub enum BlockItemInner {
    Block(BlockItemBlock),
    Register(Register),
}

/// What an item's inner part holds.
#[verifier::ext_equal]
pub enum BlockItemInnerView {
    Block { block: Seq<char> },
    Register { access: Access, bit_size: u32, fieldset: Option<Seq<char>> },
}

impl View for BlockItemInner {
    type V = BlockItemInnerView;

    open spec fn view(&self) -> BlockItemInnerView {
        match self {
            BlockItemInner::Block(b) => BlockItemInnerView::Block { block: b.block@ },
            BlockItemInner::Register(r) => BlockItemInnerView::Register {
                access: r.access,
                bit_size: r.bit_size,
                fieldset: opt_chars(r.fieldset),
            },
        }
    }
}

impl Duplicate for BlockItemInner {
    fn duplicate(&self) -> (r: Self) {
        match self {
            BlockItemInner::Block(b) => BlockItemInner::Block(
                BlockItemBlock { block: b.block.clone() },
            ),
            BlockItemInner::Register(r) => BlockItemInner::Register(
                Register {
                    access: r.access,
                    bit_size: r.bit_size,
                    fieldset: copy_opt(&r.fieldset),
                },
            ),
        }
    }
}

/// An item of a block: a register or a nested block at a byte offset.
#[derive(Debug)]
pub struct BlockItem {
    pub name: String,
    pub description: Option<String>,
    pub array: Option<Array>,
    pub byte_offset: u32,
    pub inner: BlockItemInner,
}

/// What an item holds.
#[verifier::ext_equal]
pub struct BlockItemView {
    pub name: Seq<char>,
    pub description: Option<Seq<char>>,
    pub array: Option<ArrayView>,
    pub byte_offset: u32,
    pub inner: BlockItemInnerView,
}

impl View for BlockItem {
    type V = BlockItemView;

    open spec fn view(&self) -> BlockItemView {
        BlockItemView {
            name: self.name@,
            description: opt_chars(self.description),
            array: opt_view(self.array),
            byte_offset: self.byte_offset,
            inner: self.inner@,
        }
    }
}

impl Duplicate for BlockItem {
    fn duplicate(&self) -> (r: Self) {
        BlockItem {
            name: self.name.clone(),
            description: copy_opt(&self.description),
            array: duplicate_opt(&self.array),
            byte_offset: self.byte_offset,
            inner: self.inner.duplicate(),
        }
    }
}

/// A block of registers.
#[derive(Debug)]
pub struct Block {
    pub extends: Option<String>,
    pub description: Option<String>,
    pub items: Vec<BlockItem>,
}

/// What a block holds.
#[verifier::ext_equal]
pub struct BlockView {
    pub extends: Option<Seq<char>>,
    pub description: Option<Seq<char>>,
    pub items: Seq<BlockItemView>,
}

impl View for Block {
    type V = BlockView;

    open spec fn view(&self) -> BlockView {
        BlockView {
            extends: opt_chars(self.extends),
            description: opt_chars(self.description),
            items: views(self.items@),
        }
    }
}

impl Duplicate for Block {
    fn duplicate(&self) -> (r: Self) {
        Block {
            extends: copy_opt(&self.extends),
            description: copy_opt(&self.description),
            items: duplicate_all(&self.items),
        }
    }
}

/// A field of a register.
#[derive(Debug)]
pub struct Field {
    pub name: String,
    pub description: Option<String>,
    pub bit_offset: BitOffset,
    pub bit_size: u32,
    pub array: Option<Array>,
    pub enumm: Option<String>,
}

/// What a field holds.
#[verifier::ext_equal]
pub struct FieldView {
    pub name: Seq<char>,
    pub description: Option<Seq<char>>,
    pub bit_offset: BitOffsetView,
    pub bit_size: u32,
    pub array: Option<ArrayView>,
    pub enumm: Option<Seq<char>>,
}

impl View for Field {
    type V = FieldView;

    open spec fn view(&self) -> FieldView {
        FieldView {
            name: self.name@,
            description: opt_chars(self.description),
            bit_offset: self.bit_offset@,
            bit_size: self.bit_size,
            array: opt_view(self.array),
            enumm: opt_chars(self.enumm),
        }
    }
}

impl Duplicate for Field {
    fn duplicate(&self) -> (r: Self) {
        Field {
            name: self.name.clone(),
            description: copy_opt(&self.description),
            bit_offset: self.bit_offset.duplicate(),
            bit_size: self.bit_size,
            array: duplicate_opt(&self.array),
            enumm: copy_opt(&self.enumm),
        }
    }
}

/// The fields of a register.
#[derive(Debug)]
pub struct FieldSet {
    pub extends: Option<String>,
    pub description: Option<String>,
    pub bit_size: u32,
    pub fields: Vec<Field>,
}

/// What a fieldset holds.
#[verifier::ext_equal]
pub struct FieldSetView {
    pub extends: Option<Seq<char>>,
    pub description: Option<Seq<char>>,
    pub bit_size: u32,
    pub fields: Seq<FieldView>,
}

impl View for FieldSet {
    type V = FieldSetView;

    open spec fn view(&self) -> FieldSetView {
        FieldSetView {
            extends: opt_chars(self.extends),
            description: opt_chars(self.description),
            bit_size: self.bit_size,
            fields: views(self.fields@),
        }
    }
}

impl Duplicate for FieldSet {
    fn duplicate(&self) -> (r: Self) {
        FieldSet {
            extends: copy_opt(&self.extends),
            description: copy_opt(&self.description),
            bit_size: self.bit_size,
            fields: duplicate_all(&self.fields),
        }
    }
}

/// A value that an enum names.
#[derive(Debug)]
pub struct EnumVariant {
    pub name: String,
    pub description: Option<String>,
    pub value: u64,
}

/// What a variant holds.
#[verifier::ext_equal]
pub struct EnumVariantView {
    pub name: Seq<char>,
    pub description: Option<Seq<char>>,
    pub value: u64,
}

impl View for EnumVariant {
    type V = EnumVariantView;

    open spec fn view(&self) -> EnumVariantView {
        EnumVariantView {
            name: self.name@,
            description: opt_chars(self.description),
            value: self.value,
        }
    }
}

impl Duplicate for EnumVariant {
    fn duplicate(&self) -> (r: Self) {
        EnumVariant {
            name: self.name.clone(),
            description: copy_opt(&self.description),
            value: self.value,
        }
    }
}

/// The values that a field can take.
#[derive(Debug)]
pub struct Enum {
    pub description: Option<String>,
    pub bit_size: u32,
    pub variants: Vec<EnumVariant>,
}

/// What an enum holds.
#[verifier::ext_equal]
pub struct EnumView {
    pub description: Option<Seq<char>>,
    pub bit_size: u32,
    pub variants: Seq<EnumVariantView>,
}

impl View for Enum {
    type V = EnumView;

    open spec fn view(&self) -> EnumView {
        EnumView {
            description: opt_chars(self.description),
            bit_size: self.bit_size,
            variants: views(self.variants@),
        }
    }
}

impl Duplicate for Enum {
    fn duplicate(&self) -> (r: Self) {
        Enum {
            description: copy_opt(&self.description),
            bit_size: self.bit_size,
            variants: duplicate_all(&self.variants),
        }
    }
}

/// A peripheral of a device.
#[derive(Debug)]
pub struct Peripheral {
    pub name: String,
    pub description: Option<String>,
    pub base_address: u64,
    pub block: Option<String>,
}

/// What a peripheral holds.
#[verifier::ext_equal]
pub struct PeripheralView {
    pub name: Seq<char>,
    pub description: Option<Seq<char>>,
    pub base_address: u64,
    pub block: Option<Seq<char>>,
}

impl View for Peripheral {
    type V = PeripheralView;

    open spec fn view(&self) -> PeripheralView {
        PeripheralView {
            name: self.name@,
            description: opt_chars(self.description),
            base_address: self.base_address,
            block: opt_chars(self.block),
        }
    }
}

/// An interrupt of a device.
#[derive(Debug)]
pub struct Interrupt {
    pub name: String,
    pub description: Option<String>,
    pub value: u32,
}

/// What an interrupt holds.
#[verifier::ext_equal]
pub struct InterruptView {
    pub name: Seq<char>,
    pub description: Option<Seq<char>>,
    pub value: u32,
}

impl View for Interrupt {
    type V = InterruptView;

    open spec fn view(&self) -> InterruptView {
        InterruptView {
            name: self.name@,
            description: opt_chars(self.description),
            value: self.value,
        }
    }
}

/// A device: its peripherals and interrupts.
#[derive(Debug)]
pub struct Device {
    pub peripherals: Vec<Peripheral>,
    pub interrupts: Vec<Interrupt>,
}

/// What a device holds.
#[verifier::ext_equal]
pub struct DeviceView {
    pub peripherals: Seq<PeripheralView>,
    pub interrupts: Seq<InterruptView>,
}

impl View for Device {
    type V = DeviceView;

    open spec fn view(&self) -> DeviceView {
        DeviceView {
            peripherals: views(self.peripherals@),
            interrupts: views(self.interrupts@),
        }
    }
}

/// The whole register map, by name.
#[derive(Debug)]
pub struct IR {
    pub devices: NameMap<Device>,
    pub blocks: NameMap<Block>,
    pub fieldsets: NameMap<FieldSet>,
    pub enums: NameMap<Enum>,
}

/// What a register map holds.
#[verifier::ext_equal]
pub struct IrView {
    pub devices: Entries<DeviceView>,
    pub blocks: Entries<BlockView>,
    pub fieldsets: Entries<FieldSetView>,
    pub enums: Entries<EnumView>,
}

impl View for IR {
    type V = IrView;

    open spec fn view(&self) -> IrView {
        IrView {
            devices: self.devices@,
            blocks: self.blocks@,
            fieldsets: self.fieldsets@,
            enums: self.enums@,
        }
    }
}

impl IR {
    /// An empty register map.
    pub fn new() -> (r: IR)
        ensures
            r@ == (IrView {
                devices: seq![],
                blocks: seq![],
                fieldsets: seq![],
                enums: seq![],
            }),
    {
        IR {
            devices: NameMap::new(),
            blocks: NameMap::new(),
            fieldsets: NameMap::new(),
            enums: NameMap::new(),
        }
    }
}

} // verus!
