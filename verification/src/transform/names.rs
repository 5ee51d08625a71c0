//! Renames everything in a register map that has a name, and every reference to
//! it alike.
use crate::ir::{
    duplicate_opt, views, Block, BlockItem, BlockItemBlock, BlockItemInner, BlockItemInnerView,
    BlockItemView, BlockView, Device, DeviceView, Duplicate, Enum, EnumVariant, EnumVariantView,
    EnumView, Field, FieldSet, FieldSetView, FieldView, Interrupt, InterruptView, IrView,
    Peripheral, PeripheralView, Register, IR,
};
use crate::name_map::{has_key, inserted, Entries, NameMap};
use crate::text::{copy_opt, opt_chars};
use vstd::prelude::*;

verus! {

broadcast use vstd::seq::group_seq_axioms;

/// What a name is the name of.
#[derive(Clone, Copy, Debug, PartialEq, Eq, Structural)]
pub enum NameKind {
    Device,
    DevicePeripheral,
    DeviceInterrupt,
    Block,
    BlockItem,
    Fieldset,
    Field,
    Enum,
    EnumVariant,
}

/// A new name for each name of each kind.
pub type Renaming = spec_fn(NameKind, Seq<char>) -> Seq<char>;

/// Whether `f` gives new names as `m` does.
pub open spec fn renames<F: Fn(NameKind, &str) -> String>(f: F, m: Renaming) -> bool {
    &&& forall|k: NameKind, s: &str| f.requires((k, s))
    &&& forall|k: NameKind, s: &str, r: String| #[trigger]
        f.ensures((k, s), r) ==> r@ == m(k, s@)
}

/// An optional name, renamed.
pub open spec fn opt_mapped(m: Renaming, kind: NameKind, name: Option<Seq<char>>) -> Option<
    Seq<char>,
> {
    match name {
        Some(n) => Some(m(kind, n)),
        None => None,
    }
}

/// Renames an optional name.
fn map_opt<F: Fn(NameKind, &str) -> String>(
    f: &F,
    kind: NameKind,
    name: &Option<String>,
    Ghost(m): Ghost<Renaming>,
) -> (r: Option<String>)
    requires
        renames(*f, m),
    ensures
        opt_chars(r) == opt_mapped(m, kind, opt_chars(*name)),
{
    match name {
        Some(n) => Some(f(kind, n.as_str())),
        None => None,
    }
}

/// A thing that holds names.
pub trait Named: View + Sized {
    /// The thing with its names and references renamed.
    spec fn mapped(v: Self::V, m: Renaming) -> Self::V;

    /// A copy with the names and references renamed.
    fn map_names<F: Fn(NameKind, &str) -> String>(&self, f: &F, Ghost(m): Ghost<Renaming>) -> (r:
        Self)
        requires
            renames(*f, m),
        ensures
            r@ == Self::mapped(self@, m),
    ;
}

/// The things of a list, each renamed.
pub open spec fn all_mapped<T: Named>(s: Seq<T::V>, m: Renaming) -> Seq<T::V> {
    s.map_values(|v: T::V| T::mapped(v, m))
}

/// Renames each thing of a list.
fn map_all<T: Named, F: Fn(NameKind, &str) -> String>(
    v: &Vec<T>,
    f: &F,
    Ghost(m): Ghost<Renaming>,
) -> (r: Vec<T>)
    requires
        renames(*f, m),
    ensures
        views(r@) == all_mapped::<T>(views(v@), m),
{
    let mut r: Vec<T> = Vec::new();
    let mut i: usize = 0;
    while i < v.len()
        invariant
            renames(*f, m),
            i <= v@.len(),
            r@.len() == i,
            forall|j: int| 0 <= j < i ==> #[trigger] r@[j]@ == T::mapped(v@[j]@, m),
        decreases v@.len() - i,
    {
        r.push(v[i].map_names(f, Ghost(m)));
        i += 1;
    }
    assert(views(r@) =~= all_mapped::<T>(views(v@), m));
    r
}

impl Named for Peripheral {
    open spec fn mapped(v: PeripheralView, m: Renaming) -> PeripheralView {
        PeripheralView {
            name: m(NameKind::DevicePeripheral, v.name),
            block: opt_mapped(m, NameKind::Block, v.block),
            ..v
        }
    }

    fn map_names<F: Fn(NameKind, &str) -> String>(&self, f: &F, Ghost(m): Ghost<Renaming>) -> (r:
        Self) {
        Peripheral {
            name: f(NameKind::DevicePeripheral, self.name.as_str()),
            description: copy_opt(&self.description),
            base_address: self.base_address,
            block: map_opt(f, NameKind::Block, &self.block, Ghost(m)),
        }
    }
}

impl Named for Interrupt {
    open spec fn mapped(v: InterruptView, m: Renaming) -> InterruptView {
        InterruptView { name: m(NameKind::DeviceInterrupt, v.name), ..v }
    }

    fn map_names<F: Fn(NameKind, &str) -> String>(&self, f: &F, Ghost(m): Ghost<Renaming>) -> (r:
        Self) {
        Interrupt {
            name: f(NameKind::DeviceInterrupt, self.name.as_str()),
            description: copy_opt(&self.description),
            value: self.value,
        }
    }
}

impl Named for Device {
    open spec fn mapped(v: DeviceView, m: Renaming) -> DeviceView {
        DeviceView {
            peripherals: all_mapped::<Peripheral>(v.peripherals, m),
            interrupts: all_mapped::<Interrupt>(v.interrupts, m),
        }
    }

    fn map_names<F: Fn(NameKind, &str) -> String>(&self, f: &F, Ghost(m): Ghost<Renaming>) -> (r:
        Self) {
        Device {
            peripherals: map_all(&self.peripherals, f, Ghost(m)),
            interrupts: map_all(&self.interrupts, f, Ghost(m)),
        }
    }
}

/// The inner part of an item, its reference renamed.
pub open spec fn inner_mapped(v: BlockItemInnerView, m: Renaming) -> BlockItemInnerView {
    match v {
        BlockItemInnerView::Block { block } => BlockItemInnerView::Block {
            block: m(NameKind::Block, block),
        },
        BlockItemInnerView::Register { access, bit_size, fieldset } => {
            BlockItemInnerView::Register {
                access,
                bit_size,
                fieldset: opt_mapped(m, NameKind::Fieldset, fieldset),
            }
        },
    }
}

impl Named for BlockItem {
    open spec fn mapped(v: BlockItemView, m: Renaming) -> BlockItemView {
        BlockItemView {
            name: m(NameKind::BlockItem, v.name),
            inner: inner_mapped(v.inner, m),
            ..v
        }
    }

    fn map_names<F: Fn(NameKind, &str) -> String>(&self, f: &F, Ghost(m): Ghost<Renaming>) -> (r:
        Self) {
        let inner = match &self.inner {
            BlockItemInner::Block(b) => BlockItemInner::Block(
                BlockItemBlock { block: f(NameKind::Block, b.block.as_str()) },
            ),
            BlockItemInner::Register(r) => BlockItemInner::Register(
                Register {
                    access: r.access,
                    bit_size: r.bit_size,
                    fieldset: map_opt(f, NameKind::Fieldset, &r.fieldset, Ghost(m)),
                },
            ),
        };
        BlockItem {
            name: f(NameKind::BlockItem, self.name.as_str()),
            description: copy_opt(&self.description),
            array: duplicate_opt(&self.array),
            byte_offset: self.byte_offset,
            inner,
        }
    }
}

impl Named for Block {
    open spec fn mapped(v: BlockView, m: Renaming) -> BlockView {
        BlockView {
            extends: opt_mapped(m, NameKind::Block, v.extends),
            items: all_mapped::<BlockItem>(v.items, m),
            ..v
        }
    }

    fn map_names<F: Fn(NameKind, &str) -> String>(&self, f: &F, Ghost(m): Ghost<Renaming>) -> (r:
        Self) {
        Block {
            extends: map_opt(f, NameKind::Block, &self.extends, Ghost(m)),
            description: copy_opt(&self.description),
            items: map_all(&self.items, f, Ghost(m)),
        }
    }
}

impl Named for Field {
    open spec fn mapped(v: FieldView, m: Renaming) -> FieldView {
        FieldView {
            name: m(NameKind::Field, v.name),
            enumm: opt_mapped(m, NameKind::Enum, v.enumm),
            ..v
        }
    }

    fn map_names<F: Fn(NameKind, &str) -> String>(&self, f: &F, Ghost(m): Ghost<Renaming>) -> (r:
        Self) {
        Field {
            name: f(NameKind::Field, self.name.as_str()),
            description: copy_opt(&self.description),
            bit_offset: self.bit_offset.duplicate(),
            bit_size: self.bit_size,
            array: duplicate_opt(&self.array),
            enumm: map_opt(f, NameKind::Enum, &self.enumm, Ghost(m)),
        }
    }
}

impl Named for FieldSet {
    open spec fn mapped(v: FieldSetView, m: Renaming) -> FieldSetView {
        FieldSetView {
            extends: opt_mapped(m, NameKind::Fieldset, v.extends),
            fields: all_mapped::<Field>(v.fields, m),
            ..v
        }
    }

    fn map_names<F: Fn(NameKind, &str) -> String>(&self, f: &F, Ghost(m): Ghost<Renaming>) -> (r:
        Self) {
        FieldSet {
            extends: map_opt(f, NameKind::Fieldset, &self.extends, Ghost(m)),
            description: copy_opt(&self.description),
            bit_size: self.bit_size,
            fields: map_all(&self.fields, f, Ghost(m)),
        }
    }
}

impl Named for EnumVariant {
    open spec fn mapped(v: EnumVariantView, m: Renaming) -> EnumVariantView {
        EnumVariantView { name: m(NameKind::EnumVariant, v.name), ..v }
    }

    fn map_names<F: Fn(NameKind, &str) -> String>(&self, f: &F, Ghost(m): Ghost<Renaming>) -> (r:
        Self) {
        EnumVariant {
            name: f(NameKind::EnumVariant, self.name.as_str()),
            description: copy_opt(&self.description),
            value: self.value,
        }
    }
}

impl Named for Enum {
    open spec fn mapped(v: EnumView, m: Renaming) -> EnumView {
        EnumView { variants: all_mapped::<EnumVariant>(v.variants, m), ..v }
    }

    fn map_names<F: Fn(NameKind, &str) -> String>(&self, f: &F, Ghost(m): Ghost<Renaming>) -> (r:
        Self) {
        Enum {
            description: copy_opt(&self.description),
            bit_size: self.bit_size,
            variants: map_all(&self.variants, f, Ghost(m)),
        }
    }
}

/// Two things of one kind that would get the same name.
#[derive(Debug)]
pub struct NameClash {
    pub kind: NameKind,
    pub name: String,
}

/// What a clash holds.
#[verifier::ext_equal]
pub struct NameClashView {
    pub kind: NameKind,
    pub name: Seq<char>,
}

impl View for NameClash {
    type V = NameClashView;

    open spec fn view(&self) -> NameClashView {
        NameClashView { kind: self.kind, name: self.name@ }
    }
}

/// The entries of a map, each renamed, or the first clash.
pub open spec fn remapped<T: Named>(
    entries: Entries<T::V>,
    kind: NameKind,
    m: Renaming,
) -> Result<Entries<T::V>, NameClashView>
    decreases entries.len(),
{
    if entries.len() == 0 {
        Ok(seq![])
    } else {
        let last = entries.last();
        match remapped::<T>(entries.drop_last(), kind, m) {
            Err(e) => Err(e),
            Ok(done) => {
                let name = m(kind, last.0);
                if has_key(done, name) {
                    Err(NameClashView { kind, name })
                } else {
                    Ok(inserted(done, name, T::mapped(last.1, m)))
                }
            },
        }
    }
}

/// What has clashed stays so.
proof fn lemma_clash_stays<T: Named>(
    entries: Entries<T::V>,
    kind: NameKind,
    m: Renaming,
    n: int,
    e: NameClashView,
)
    requires
        0 <= n <= entries.len(),
        remapped::<T>(entries.take(n), kind, m) == Err::<Entries<T::V>, NameClashView>(e),
    ensures
        remapped::<T>(entries, kind, m) == Err::<Entries<T::V>, NameClashView>(e),
    decreases entries.len() - n,
{
    if n == entries.len() {
        assert(entries.take(n) =~= entries);
    } else {
        assert(entries.take(n + 1).drop_last() =~= entries.take(n));
        lemma_clash_stays::<T>(entries, kind, m, n + 1, e);
    }
}

/// Whether `r` holds what `v` holds, or the same clash.
pub open spec fn is_remapped<T: View>(
    r: Result<NameMap<T>, NameClash>,
    v: Result<Entries<T::V>, NameClashView>,
) -> bool {
    match r {
        Ok(map) => v == Ok::<Entries<T::V>, NameClashView>(map@),
        Err(e) => v == Err::<Entries<T::V>, NameClashView>(e@),
    }
}

/// Renames the entries of a map.
fn remap<T: Named, F: Fn(NameKind, &str) -> String>(
    map: &NameMap<T>,
    kind: NameKind,
    f: &F,
    Ghost(m): Ghost<Renaming>,
) -> (r: Result<NameMap<T>, NameClash>)
    requires
        renames(*f, m),
    ensures
        is_remapped(r, remapped::<T>(map@, kind, m)),
{
    let ghost all = map@;
    let mut r: NameMap<T> = NameMap::new();
    let mut i: usize = 0;
    while i < map.len()
        invariant
            renames(*f, m),
            i <= all.len(),
            all == map@,
            remapped::<T>(all.take(i as int), kind, m) == Ok::<Entries<T::V>, NameClashView>(r@),
        decreases all.len() - i,
    {
        let name = f(kind, map.key_at(i).as_str());
        proof {
            assert(all.take(i + 1).drop_last() =~= all.take(i as int));
            assert(all.take(i + 1).last() == all[i as int]);
        }
        if r.find(name.as_str()).is_some() {
            proof {
                assert(has_key(r@, name@));
                lemma_clash_stays::<T>(
                    all,
                    kind,
                    m,
                    i + 1,
                    NameClashView { kind, name: name@ },
                );
            }
            return Err(NameClash { kind, name });
        }
        r = r.insert(name, map.value_at(i).map_names(f, Ghost(m)));
        i += 1;
    }
    assert(all.take(i as int) =~= all);
    Ok(r)
}

/// The register map with everything renamed, or the first clash: the devices are
/// renamed first, then the blocks, the fieldsets and the enums.
pub open spec fn names_mapped(ir: IrView, m: Renaming) -> Result<IrView, NameClashView> {
    match remapped::<Device>(ir.devices, NameKind::Device, m) {
        Err(e) => Err(e),
        Ok(devices) => match remapped::<Block>(ir.blocks, NameKind::Block, m) {
            Err(e) => Err(e),
            Ok(blocks) => match remapped::<FieldSet>(ir.fieldsets, NameKind::Fieldset, m) {
                Err(e) => Err(e),
                Ok(fieldsets) => match remapped::<Enum>(ir.enums, NameKind::Enum, m) {
                    Err(e) => Err(e),
                    Ok(enums) => Ok(IrView { devices, blocks, fieldsets, enums }),
                },
            },
        },
    }
}

/// A copy of the register map with everything renamed.
pub(crate) fn map_names<F: Fn(NameKind, &str) -> String>(
    ir: &IR,
    f: &F,
    Ghost(m): Ghost<Renaming>,
) -> (r: Result<IR, NameClash>)
    requires
        renames(*f, m),
    ensures
        match r {
            Ok(new) => names_mapped(ir@, m) == Ok::<IrView, NameClashView>(new@),
            Err(e) => names_mapped(ir@, m) == Err::<IrView, NameClashView>(e@),
        },
{
    let devices = match remap(&ir.devices, NameKind::Device, f, Ghost(m)) {
        Ok(devices) => devices,
        Err(e) => {
            return Err(e);
        },
    };
    let blocks = match remap(&ir.blocks, NameKind::Block, f, Ghost(m)) {
        Ok(blocks) => blocks,
        Err(e) => {
            return Err(e);
        },
    };
    let fieldsets = match remap(&ir.fieldsets, NameKind::Fieldset, f, Ghost(m)) {
        Ok(fieldsets) => fieldsets,
        Err(e) => {
            return Err(e);
        },
    };
    let enums = match remap(&ir.enums, NameKind::Enum, f, Ghost(m)) {
        Ok(enums) => enums,
        Err(e) => {
            return Err(e);
        },
    };
    Ok(IR { devices, blocks, fieldsets, enums })
}

} // verus!
