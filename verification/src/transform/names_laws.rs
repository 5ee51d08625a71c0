//! What holds of a register map whose names have been mapped: every thing is found
//! under its new name, and every reference that led somewhere still does.
use crate::ir::{
    Block, BlockItem, BlockItemInnerView, BlockItemView, BlockView, Device, DeviceView, Enum,
    EnumVariant, EnumView, Field, FieldSet, FieldSetView, Interrupt, IrView, Peripheral,
};
use crate::name_map::{
    has_key, inserted, is_entry, keys_increase, lemma_entry_unique, lemma_inserted, lemma_rank,
    lookup, Entries,
};
use crate::text::{join, less, split};
use crate::transform::legacy_sanitize::{
    all_settled, constant_case, legacy_sanitized, pascal_case, sanitized_name, sanitized_parts,
    sanitized_path, sanitizing, settled, snake_case,
};
use crate::transform::names::{names_mapped, remapped, NameClashView, NameKind, Named, Renaming};
use crate::transform::sanitize::{merged, name_is_shared, told_apart};
use crate::transform::sanitize_laws::{
    lemma_merged, lemma_merged_first, lemma_names_differ, lemma_sanitized,
    lemma_told_apart_stands, stands_as_is,
};
use vstd::prelude::*;

verus! {

broadcast use vstd::seq::group_seq_axioms;

/// Where no two new names clash, the map keeps its size and its order, and holds
/// each thing under its new name, and nothing else. Where it fails, two names
/// clash.
pub proof fn lemma_remapped<T: Named>(entries: Entries<T::V>, kind: NameKind, m: Renaming)
    ensures
        match remapped::<T>(entries, kind, m) {
            Ok(new) => {
                &&& keys_increase(new)
                &&& new.len() == entries.len()
                &&& forall|i: int|
                    0 <= i < entries.len() ==> lookup(new, m(kind, (#[trigger] entries[i]).0))
                        == Some(T::mapped(entries[i].1, m))
                &&& forall|key: Seq<char>| #[trigger]
                    has_key(new, key) ==> exists|i: int|
                        0 <= i < entries.len() && m(kind, (#[trigger] entries[i]).0) == key
                &&& forall|i: int, j: int|
                    0 <= i < j < entries.len() ==> m(kind, (#[trigger] entries[i]).0) != m(
                        kind,
                        (#[trigger] entries[j]).0,
                    )
            },
            Err(e) => {
                &&& e.kind == kind
                &&& exists|i: int, j: int|
                    0 <= i < j < entries.len() && m(kind, (#[trigger] entries[i]).0) == e.name && m(
                        kind,
                        (#[trigger] entries[j]).0,
                    ) == e.name
            },
        },
    decreases entries.len(),
{
    if entries.len() > 0 {
        let init = entries.drop_last();
        let last = entries.last();
        let n = entries.len() - 1;
        let name = m(kind, last.0);
        lemma_remapped::<T>(init, kind, m);
        match remapped::<T>(init, kind, m) {
            Err(e) => {
                let (i, j) = choose|i: int, j: int|
                    0 <= i < j < init.len() && m(kind, (#[trigger] init[i]).0) == e.name && m(
                        kind,
                        (#[trigger] init[j]).0,
                    ) == e.name;
                assert(m(kind, entries[i].0) == e.name && m(kind, entries[j].0) == e.name);
            },
            Ok(done) => {
                if has_key(done, name) {
                    let i = choose|i: int|
                        0 <= i < init.len() && m(kind, (#[trigger] init[i]).0) == name;
                    assert(m(kind, entries[i].0) == name && m(kind, entries[n].0) == name);
                } else {
                    let value = T::mapped(last.1, m);
                    let new = inserted(done, name, value);
                    lemma_inserted(done, name, value);
                    lemma_rank(done, name);
                    assert(new.len() == entries.len());
                    assert forall|i: int| 0 <= i < entries.len() implies lookup(
                        new,
                        m(kind, (#[trigger] entries[i]).0),
                    ) == Some(T::mapped(entries[i].1, m)) by {
                        if i < n {
                            let key = m(kind, init[i].0);
                            assert(lookup(done, key) == Some(T::mapped(init[i].1, m)));
                            assert(has_key(done, key));
                            assert(lookup(new, key) == lookup(done, key));
                        }
                    }
                    assert forall|key: Seq<char>| #[trigger] has_key(new, key) implies exists|
                        i: int,
                    |
                        0 <= i < entries.len() && m(kind, (#[trigger] entries[i]).0) == key by {
                        if key == name {
                            assert(m(kind, entries[n].0) == key);
                        } else {
                            assert(lookup(new, key) == lookup(done, key));
                            assert(has_key(done, key));
                            let i = choose|i: int|
                                0 <= i < init.len() && m(kind, (#[trigger] init[i]).0) == key;
                            assert(m(kind, entries[i].0) == key);
                        }
                    }
                    assert forall|i: int, j: int| 0 <= i < j < entries.len() implies m(
                        kind,
                        (#[trigger] entries[i]).0,
                    ) != m(kind, (#[trigger] entries[j]).0) by {
                        let key = m(kind, init[i].0);
                        assert(lookup(done, key) == Some(T::mapped(init[i].1, m)));
                        assert(has_key(done, key));
                        if j < n {
                            assert(init[i] == entries[i] && init[j] == entries[j]);
                        }
                    }
                }
            },
        }
    }
}

/// Each entry of the new map is an entry of the old one, renamed.
pub proof fn lemma_entry_source<T: Named>(
    entries: Entries<T::V>,
    kind: NameKind,
    m: Renaming,
    k: int,
) -> (i: int)
    requires
        remapped::<T>(entries, kind, m) is Ok,
        0 <= k < (remapped::<T>(entries, kind, m)->Ok_0).len(),
    ensures
        0 <= i < entries.len(),
        (remapped::<T>(entries, kind, m)->Ok_0)[k] == (
            m(kind, entries[i].0),
            T::mapped(entries[i].1, m),
        ),
{
    let new = remapped::<T>(entries, kind, m)->Ok_0;
    lemma_remapped::<T>(entries, kind, m);
    assert(is_entry(new, new[k].0, k));
    lemma_entry_unique(new, new[k].0, k);
    let i = choose|i: int| 0 <= i < entries.len() && m(kind, (#[trigger] entries[i]).0) == new[k].0;
    assert(lookup(new, m(kind, entries[i].0)) == Some(T::mapped(entries[i].1, m)));
    i
}

/// A name of the old map has its new name in the new one.
proof fn lemma_key_kept<T: Named>(
    entries: Entries<T::V>,
    kind: NameKind,
    m: Renaming,
    key: Seq<char>,
)
    requires
        remapped::<T>(entries, kind, m) is Ok,
        has_key(entries, key),
    ensures
        has_key(remapped::<T>(entries, kind, m)->Ok_0, m(kind, key)),
{
    lemma_remapped::<T>(entries, kind, m);
    let i = choose|i: int| #[trigger] is_entry(entries, key, i);
    let new = remapped::<T>(entries, kind, m)->Ok_0;
    assert(lookup(new, m(kind, entries[i].0)) == Some(T::mapped(entries[i].1, m)));
}

/// Whether a reference, if there is one, leads to an entry.
pub open spec fn leads<V>(m: Entries<V>, name: Option<Seq<char>>) -> bool {
    name matches Some(n) ==> has_key(m, n)
}

/// Whether the references of a device lead somewhere.
pub open spec fn device_resolves(ir: IrView, d: DeviceView) -> bool {
    forall|i: int|
        0 <= i < d.peripherals.len() ==> leads(ir.blocks, (#[trigger] d.peripherals[i]).block)
}

/// Whether the reference of an item leads somewhere.
pub open spec fn item_resolves(ir: IrView, i: BlockItemView) -> bool {
    match i.inner {
        BlockItemInnerView::Block { block } => has_key(ir.blocks, block),
        BlockItemInnerView::Register { fieldset, .. } => leads(ir.fieldsets, fieldset),
    }
}

/// Whether the references of a block lead somewhere.
pub open spec fn block_resolves(ir: IrView, b: BlockView) -> bool {
    &&& leads(ir.blocks, b.extends)
    &&& forall|i: int| 0 <= i < b.items.len() ==> item_resolves(ir, #[trigger] b.items[i])
}

/// Whether the references of a fieldset lead somewhere.
pub open spec fn fieldset_resolves(ir: IrView, f: FieldSetView) -> bool {
    &&& leads(ir.fieldsets, f.extends)
    &&& forall|i: int| 0 <= i < f.fields.len() ==> leads(ir.enums, (#[trigger] f.fields[i]).enumm)
}

/// Whether every reference of the register map leads somewhere.
pub open spec fn references_resolve(ir: IrView) -> bool {
    &&& forall|i: int|
        0 <= i < ir.devices.len() ==> device_resolves(ir, (#[trigger] ir.devices[i]).1)
    &&& forall|i: int|
        0 <= i < ir.blocks.len() ==> block_resolves(ir, (#[trigger] ir.blocks[i]).1)
    &&& forall|i: int|
        0 <= i < ir.fieldsets.len() ==> fieldset_resolves(ir, (#[trigger] ir.fieldsets[i]).1)
}

/// The references of a device still lead somewhere.
proof fn lemma_device_resolves(ir: IrView, m: Renaming, new: IrView, d: DeviceView)
    requires
        names_mapped(ir, m) == Ok::<IrView, NameClashView>(new),
        device_resolves(ir, d),
    ensures
        device_resolves(new, Device::mapped(d, m)),
{
    let r = Device::mapped(d, m);
    assert forall|i: int| 0 <= i < r.peripherals.len() implies leads(
        new.blocks,
        (#[trigger] r.peripherals[i]).block,
    ) by {
        let p = d.peripherals[i];
        assert(leads(ir.blocks, p.block));
        assert(r.peripherals[i] == Peripheral::mapped(p, m));
        if let Some(b) = p.block {
            lemma_key_kept::<Block>(ir.blocks, NameKind::Block, m, b);
        }
    }
}

/// The references of a block still lead somewhere.
proof fn lemma_block_resolves(ir: IrView, m: Renaming, new: IrView, b: BlockView)
    requires
        names_mapped(ir, m) == Ok::<IrView, NameClashView>(new),
        block_resolves(ir, b),
    ensures
        block_resolves(new, Block::mapped(b, m)),
{
    let r = Block::mapped(b, m);
    if let Some(e) = b.extends {
        lemma_key_kept::<Block>(ir.blocks, NameKind::Block, m, e);
    }
    assert forall|i: int| 0 <= i < r.items.len() implies item_resolves(new, #[trigger] r.items[i]) by {
        let item = b.items[i];
        assert(item_resolves(ir, item));
        assert(r.items[i] == BlockItem::mapped(item, m));
        match item.inner {
            BlockItemInnerView::Block { block } => {
                lemma_key_kept::<Block>(ir.blocks, NameKind::Block, m, block);
            },
            BlockItemInnerView::Register { fieldset, .. } => {
                if let Some(f) = fieldset {
                    lemma_key_kept::<FieldSet>(ir.fieldsets, NameKind::Fieldset, m, f);
                }
            },
        }
    }
}

/// The references of a fieldset still lead somewhere.
proof fn lemma_fieldset_resolves(ir: IrView, m: Renaming, new: IrView, f: FieldSetView)
    requires
        names_mapped(ir, m) == Ok::<IrView, NameClashView>(new),
        fieldset_resolves(ir, f),
    ensures
        fieldset_resolves(new, FieldSet::mapped(f, m)),
{
    let r = FieldSet::mapped(f, m);
    if let Some(e) = f.extends {
        lemma_key_kept::<FieldSet>(ir.fieldsets, NameKind::Fieldset, m, e);
    }
    assert forall|i: int| 0 <= i < r.fields.len() implies leads(
        new.enums,
        (#[trigger] r.fields[i]).enumm,
    ) by {
        let field = f.fields[i];
        assert(leads(ir.enums, field.enumm));
        assert(r.fields[i] == Field::mapped(field, m));
        if let Some(e) = field.enumm {
            lemma_key_kept::<Enum>(ir.enums, NameKind::Enum, m, e);
        }
    }
}

/// Where every reference of a register map leads somewhere, it does so after the
/// names are mapped.
pub proof fn lemma_references_resolve(ir: IrView, m: Renaming, new: IrView)
    requires
        names_mapped(ir, m) == Ok::<IrView, NameClashView>(new),
        references_resolve(ir),
    ensures
        references_resolve(new),
{
    assert forall|k: int| 0 <= k < new.devices.len() implies device_resolves(
        new,
        (#[trigger] new.devices[k]).1,
    ) by {
        let i = lemma_entry_source::<Device>(ir.devices, NameKind::Device, m, k);
        assert(device_resolves(ir, ir.devices[i].1));
        lemma_device_resolves(ir, m, new, ir.devices[i].1);
    }
    assert forall|k: int| 0 <= k < new.blocks.len() implies block_resolves(
        new,
        (#[trigger] new.blocks[k]).1,
    ) by {
        let i = lemma_entry_source::<Block>(ir.blocks, NameKind::Block, m, k);
        assert(block_resolves(ir, ir.blocks[i].1));
        lemma_block_resolves(ir, m, new, ir.blocks[i].1);
    }
    assert forall|k: int| 0 <= k < new.fieldsets.len() implies fieldset_resolves(
        new,
        (#[trigger] new.fieldsets[k]).1,
    ) by {
        let i = lemma_entry_source::<FieldSet>(ir.fieldsets, NameKind::Fieldset, m, k);
        assert(fieldset_resolves(ir, ir.fieldsets[i].1));
        lemma_fieldset_resolves(ir, m, new, ir.fieldsets[i].1);
    }
}

/// Settling the enums keeps their names.
proof fn lemma_settled_keys(enums: Entries<EnumView>, key: Seq<char>)
    ensures
        has_key(all_settled(enums), key) == has_key(enums, key),
{
    let new = all_settled(enums);
    if has_key(enums, key) {
        let i = choose|i: int| #[trigger] is_entry(enums, key, i);
        assert(is_entry(new, key, i));
    }
    if has_key(new, key) {
        let i = choose|i: int| #[trigger] is_entry(new, key, i);
        assert(is_entry(enums, key, i));
    }
}

/// Where every reference of a register map leads somewhere, it does so after the
/// map is sanitized.
pub proof fn lemma_sanitized_references(ir: IrView, new: IrView)
    requires
        legacy_sanitized(ir) == Ok::<IrView, NameClashView>(new),
        references_resolve(ir),
    ensures
        references_resolve(new),
{
    let mapped = names_mapped(ir, sanitizing())->Ok_0;
    lemma_references_resolve(ir, sanitizing(), mapped);
    assert forall|i: int| 0 <= i < new.devices.len() implies device_resolves(
        new,
        (#[trigger] new.devices[i]).1,
    ) by {
        assert(device_resolves(mapped, mapped.devices[i].1));
    }
    assert forall|i: int| 0 <= i < new.blocks.len() implies block_resolves(
        new,
        (#[trigger] new.blocks[i]).1,
    ) by {
        let b = mapped.blocks[i].1;
        assert(block_resolves(mapped, b));
        assert forall|k: int| 0 <= k < b.items.len() implies item_resolves(
            new,
            #[trigger] b.items[k],
        ) by {
            assert(item_resolves(mapped, b.items[k]));
        }
    }
    assert forall|i: int| 0 <= i < new.fieldsets.len() implies fieldset_resolves(
        new,
        (#[trigger] new.fieldsets[i]).1,
    ) by {
        let f = mapped.fieldsets[i].1;
        assert(fieldset_resolves(mapped, f));
        assert forall|k: int| 0 <= k < f.fields.len() implies leads(
            new.enums,
            (#[trigger] f.fields[k]).enumm,
        ) by {
            assert(leads(mapped.enums, f.fields[k].enumm));
            if let Some(e) = f.fields[k].enumm {
                lemma_settled_keys(mapped.enums, e);
            }
        }
    }
}

/// A register map is sanitized exactly where no two things of one kind, out of
/// devices, blocks, fieldsets and enums, get the same name.
pub proof fn lemma_sanitized_if_distinct(ir: IrView)
    ensures
        legacy_sanitized(ir) is Ok <==> {
            &&& forall|i: int, j: int|
                0 <= i < j < ir.devices.len() ==> sanitized_name(
                    NameKind::Device,
                    (#[trigger] ir.devices[i]).0,
                ) != sanitized_name(NameKind::Device, (#[trigger] ir.devices[j]).0)
            &&& forall|i: int, j: int|
                0 <= i < j < ir.blocks.len() ==> sanitized_name(
                    NameKind::Block,
                    (#[trigger] ir.blocks[i]).0,
                ) != sanitized_name(NameKind::Block, (#[trigger] ir.blocks[j]).0)
            &&& forall|i: int, j: int|
                0 <= i < j < ir.fieldsets.len() ==> sanitized_name(
                    NameKind::Fieldset,
                    (#[trigger] ir.fieldsets[i]).0,
                ) != sanitized_name(NameKind::Fieldset, (#[trigger] ir.fieldsets[j]).0)
            &&& forall|i: int, j: int|
                0 <= i < j < ir.enums.len() ==> sanitized_name(
                    NameKind::Enum,
                    (#[trigger] ir.enums[i]).0,
                ) != sanitized_name(NameKind::Enum, (#[trigger] ir.enums[j]).0)
        },
{
    let m = sanitizing();
    lemma_remapped::<Device>(ir.devices, NameKind::Device, m);
    lemma_remapped::<Block>(ir.blocks, NameKind::Block, m);
    lemma_remapped::<FieldSet>(ir.fieldsets, NameKind::Fieldset, m);
    lemma_remapped::<Enum>(ir.enums, NameKind::Enum, m);
}

/// What was found under a name before the register map was sanitized is found,
/// sanitized, under the sanitized name after.
pub proof fn lemma_sanitized_lookup(ir: IrView, new: IrView, key: Seq<char>)
    requires
        legacy_sanitized(ir) == Ok::<IrView, NameClashView>(new),
    ensures
        lookup(ir.devices, key) matches Some(d) ==> lookup(
            new.devices,
            sanitized_name(NameKind::Device, key),
        ) == Some(Device::mapped(d, sanitizing())),
        lookup(ir.blocks, key) matches Some(b) ==> lookup(
            new.blocks,
            sanitized_name(NameKind::Block, key),
        ) == Some(Block::mapped(b, sanitizing())),
        lookup(ir.fieldsets, key) matches Some(f) ==> lookup(
            new.fieldsets,
            sanitized_name(NameKind::Fieldset, key),
        ) == Some(FieldSet::mapped(f, sanitizing())),
        lookup(ir.enums, key) matches Some(e) ==> lookup(
            new.enums,
            sanitized_name(NameKind::Enum, key),
        ) == Some(settled(Enum::mapped(e, sanitizing()))),
{
    let m = sanitizing();
    lemma_remapped::<Device>(ir.devices, NameKind::Device, m);
    lemma_remapped::<Block>(ir.blocks, NameKind::Block, m);
    lemma_remapped::<FieldSet>(ir.fieldsets, NameKind::Fieldset, m);
    lemma_remapped::<Enum>(ir.enums, NameKind::Enum, m);
    if has_key(ir.devices, key) {
        let i = choose|i: int| #[trigger] is_entry(ir.devices, key, i);
        assert(ir.devices[i].0 == key);
    }
    if has_key(ir.blocks, key) {
        let i = choose|i: int| #[trigger] is_entry(ir.blocks, key, i);
        assert(ir.blocks[i].0 == key);
    }
    if has_key(ir.fieldsets, key) {
        let i = choose|i: int| #[trigger] is_entry(ir.fieldsets, key, i);
        assert(ir.fieldsets[i].0 == key);
    }
    if has_key(ir.enums, key) {
        let i = choose|i: int| #[trigger] is_entry(ir.enums, key, i);
        assert(ir.enums[i].0 == key);
        let mapped = names_mapped(ir, m)->Ok_0;
        let name = sanitized_name(NameKind::Enum, key);
        assert(lookup(mapped.enums, name) == Some(Enum::mapped(ir.enums[i].1, m)));
        let k = choose|k: int| #[trigger] is_entry(mapped.enums, name, k);
        assert(is_entry(mapped.enums, name, k));
        assert(is_entry(new.enums, name, k));
        assert(keys_increase(new.enums)) by {
            assert forall|a: int, b: int|
                0 <= a < b < new.enums.len() implies less(
                #[trigger] new.enums[a].0,
                #[trigger] new.enums[b].0,
            ) by {
                assert(less(mapped.enums[a].0, mapped.enums[b].0));
            }
        }
        lemma_entry_unique(new.enums, name, k);
    }
}

/// A sanitized path has as many parts as the path, and each can stand as it is.
pub proof fn lemma_path_parts(p: Seq<char>)
    ensures
        ({
            let parts = sanitized_parts(split(p, "::"@));
            &&& sanitized_path(p) == join(parts, "::"@)
            &&& parts.len() == split(p, "::"@).len()
            &&& forall|i: int| 0 <= i < parts.len() ==> stands_as_is(#[trigger] parts[i])
        }),
{
    let pieces = split(p, "::"@);
    let parts = sanitized_parts(pieces);
    assert forall|i: int| 0 <= i < parts.len() implies stands_as_is(#[trigger] parts[i]) by {
        if i == pieces.len() - 1 {
            lemma_sanitized(pascal_case(pieces[i]));
        } else {
            lemma_sanitized(snake_case(pieces[i]));
        }
    }
}

/// The variants of a settled enum all have different names, but for a name that a
/// variant got with its value and another one already had.
pub proof fn lemma_settled(e: EnumView)
    ensures
        ({
            let kept = merged(e.variants);
            let all = settled(e).variants;
            (forall|i: int, j: int|
                0 <= i < j < all.len() ==> (#[trigger] all[i]).name != (
                #[trigger] all[j]).name) <==> (forall|i: int, j: int|
                0 <= i < kept.len() && 0 <= j < kept.len() && name_is_shared(kept, i)
                    && !name_is_shared(kept, j) ==> told_apart(#[trigger] kept[i]).name != (
                #[trigger] kept[j]).name)
        }),
{
    lemma_merged(e.variants);
    lemma_names_differ(merged(e.variants));
}

/// Whether the names of peripherals, interrupts, items, fields
/// and variants can all stand as they are.
pub open spec fn members_stand(ir: IrView) -> bool {
    &&& forall|i: int, j: int|
        0 <= i < ir.devices.len() && 0 <= j < ir.devices[i].1.peripherals.len() ==> stands_as_is(
            (#[trigger] ir.devices[i].1.peripherals[j]).name,
        )
    &&& forall|i: int, j: int|
        0 <= i < ir.devices.len() && 0 <= j < ir.devices[i].1.interrupts.len() ==> stands_as_is(
            (#[trigger] ir.devices[i].1.interrupts[j]).name,
        )
    &&& forall|i: int, j: int|
        0 <= i < ir.blocks.len() && 0 <= j < ir.blocks[i].1.items.len() ==> stands_as_is(
            (#[trigger] ir.blocks[i].1.items[j]).name,
        )
    &&& forall|i: int, j: int|
        0 <= i < ir.fieldsets.len() && 0 <= j < ir.fieldsets[i].1.fields.len() ==> stands_as_is(
            (#[trigger] ir.fieldsets[i].1.fields[j]).name,
        )
    &&& forall|i: int, j: int|
        0 <= i < ir.enums.len() && 0 <= j < ir.enums[i].1.variants.len() ==> stands_as_is(
            (#[trigger] ir.enums[i].1.variants[j]).name,
        )
}

/// The variants of an enum that is sanitized and settled have names that can stand
/// as they are.
proof fn lemma_variants_stand(e: EnumView, j: int)
    requires
        0 <= j < settled(Enum::mapped(e, sanitizing())).variants.len(),
    ensures
        stands_as_is(settled(Enum::mapped(e, sanitizing())).variants[j].name),
{
    let all = Enum::mapped(e, sanitizing()).variants;
    let kept = merged(all);
    let i = lemma_merged_first(all, j);
    assert(all[i] == EnumVariant::mapped(e.variants[i], sanitizing()));
    lemma_sanitized(constant_case(e.variants[i].name));
    assert(stands_as_is(kept[j].name));
    lemma_told_apart_stands(kept[j]);
}

/// After a register map is sanitized, the names of peripherals, interrupts, items,
/// fields and variants can all stand as they are.
pub proof fn lemma_sanitized_members(ir: IrView, new: IrView)
    requires
        legacy_sanitized(ir) == Ok::<IrView, NameClashView>(new),
    ensures
        members_stand(new),
{
    let m = sanitizing();
    assert forall|k: int, j: int|
        0 <= k < new.devices.len() && 0 <= j
            < new.devices[k].1.peripherals.len() implies stands_as_is(
        (#[trigger] new.devices[k].1.peripherals[j]).name,
    ) by {
        let i = lemma_entry_source::<Device>(ir.devices, NameKind::Device, m, k);
        let old = ir.devices[i].1.peripherals[j];
        assert(new.devices[k].1.peripherals[j] == Peripheral::mapped(old, m));
        lemma_sanitized(constant_case(old.name));
    }
    assert forall|k: int, j: int|
        0 <= k < new.devices.len() && 0 <= j
            < new.devices[k].1.interrupts.len() implies stands_as_is(
        (#[trigger] new.devices[k].1.interrupts[j]).name,
    ) by {
        let i = lemma_entry_source::<Device>(ir.devices, NameKind::Device, m, k);
        let old = ir.devices[i].1.interrupts[j];
        assert(new.devices[k].1.interrupts[j] == Interrupt::mapped(old, m));
        lemma_sanitized(constant_case(old.name));
    }
    assert forall|k: int, j: int|
        0 <= k < new.blocks.len() && 0 <= j < new.blocks[k].1.items.len() implies stands_as_is(
        (#[trigger] new.blocks[k].1.items[j]).name,
    ) by {
        let i = lemma_entry_source::<Block>(ir.blocks, NameKind::Block, m, k);
        let old = ir.blocks[i].1.items[j];
        assert(new.blocks[k].1.items[j] == BlockItem::mapped(old, m));
        lemma_sanitized(snake_case(old.name));
    }
    assert forall|k: int, j: int|
        0 <= k < new.fieldsets.len() && 0 <= j
            < new.fieldsets[k].1.fields.len() implies stands_as_is(
        (#[trigger] new.fieldsets[k].1.fields[j]).name,
    ) by {
        let i = lemma_entry_source::<FieldSet>(ir.fieldsets, NameKind::Fieldset, m, k);
        let old = ir.fieldsets[i].1.fields[j];
        assert(new.fieldsets[k].1.fields[j] == Field::mapped(old, m));
        lemma_sanitized(snake_case(old.name));
    }
    assert forall|k: int, j: int|
        0 <= k < new.enums.len() && 0 <= j < new.enums[k].1.variants.len() implies stands_as_is(
        (#[trigger] new.enums[k].1.variants[j]).name,
    ) by {
        let i = lemma_entry_source::<Enum>(ir.enums, NameKind::Enum, m, k);
        lemma_variants_stand(ir.enums[i].1, j);
    }
}

} // verus!
