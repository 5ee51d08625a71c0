//! What sanitizing makes of a register map, field by field: names and references
//! change, and nothing else does.
use crate::ir::{
    Block, BlockItem, BlockItemInnerView, BlockItemView, BlockView, Device, DeviceView, Enum,
    EnumVariant, EnumVariantView, EnumView, Field, FieldSet, FieldSetView, FieldView, Interrupt,
    InterruptView, IrView, Peripheral, PeripheralView,
};
use crate::name_map::{has_key, is_entry, keys_increase, lookup, Entries};
use crate::seqs::{lemma_total_same, total};
use crate::text::{decimal, split};
use crate::text_laws::{has_colons, is_part, lemma_join_path, lemma_split_path};
use crate::transform::legacy_sanitize::{
    constant_case, legacy_sanitized, pascal_case, sanitized_name, sanitized_parts, sanitized_path,
    sanitizing, settled, snake_case,
};
use crate::transform::names::{names_mapped, remapped, NameClash, NameClashView, NameKind, Named};
use crate::transform::names_laws::{lemma_entry_source, lemma_remapped};
use crate::transform::sanitize::{
    has_variant, kept_chars, merged, name_is_shared, renamed_apart, sanitized,
};
use crate::transform::sanitize_laws::lemma_merged;
use vstd::prelude::*;

verus! {

broadcast use vstd::seq::group_seq_axioms;

/// Whether a character can stand in an identifier: it is no bracket, slash, space
/// or hyphen.
pub open spec fn can_stand() -> spec_fn(char) -> bool {
    |c: char|
        c != '(' && c != ')' && c != '[' && c != ']' && c != '/' && c != ' ' && c != '-'
}

/// Whether a word is reserved in Rust.
pub open spec fn is_reserved(s: Seq<char>) -> bool {
    ||| s == "abstract"@
    ||| s == "as"@
    ||| s == "async"@
    ||| s == "await"@
    ||| s == "become"@
    ||| s == "box"@
    ||| s == "break"@
    ||| s == "const"@
    ||| s == "continue"@
    ||| s == "crate"@
    ||| s == "do"@
    ||| s == "dyn"@
    ||| s == "else"@
    ||| s == "enum"@
    ||| s == "extern"@
    ||| s == "false"@
    ||| s == "final"@
    ||| s == "fn"@
    ||| s == "for"@
    ||| s == "if"@
    ||| s == "impl"@
    ||| s == "in"@
    ||| s == "let"@
    ||| s == "loop"@
    ||| s == "macro"@
    ||| s == "match"@
    ||| s == "mod"@
    ||| s == "move"@
    ||| s == "mut"@
    ||| s == "override"@
    ||| s == "priv"@
    ||| s == "pub"@
    ||| s == "ref"@
    ||| s == "return"@
    ||| s == "self"@
    ||| s == "Self"@
    ||| s == "static"@
    ||| s == "struct"@
    ||| s == "super"@
    ||| s == "trait"@
    ||| s == "true"@
    ||| s == "try"@
    ||| s == "type"@
    ||| s == "typeof"@
    ||| s == "unsafe"@
    ||| s == "unsized"@
    ||| s == "use"@
    ||| s == "virtual"@
    ||| s == "where"@
    ||| s == "while"@
    ||| s == "yield"@
}

/// What is kept of a name is the characters that can stand, in order.
proof fn lemma_kept(s: Seq<char>)
    ensures
        kept_chars(s) == s.filter(can_stand()),
    decreases s.len(),
{
    reveal(Seq::filter);
    if s.len() > 0 {
        lemma_kept(s.drop_last());
    } else {
        assert(kept_chars(s) =~= s.filter(can_stand()));
    }
}

/// The identifier that is made of a name is the characters of the name that can
/// stand, in order, with an underscore before them if they begin with a digit, and
/// else behind them if they are a reserved word.
pub proof fn lemma_identifier(s: Seq<char>)
    ensures
        ({
            let kept = s.filter(can_stand());
            if kept.len() > 0 && '0' as u32 <= kept[0] as u32 && kept[0] as u32 <= '9' as u32 {
                sanitized(s) == seq!['_'] + kept
            } else if is_reserved(kept) {
                sanitized(s) == kept.push('_')
            } else {
                sanitized(s) == kept
            }
        }),
{
    reveal_strlit("_");
    lemma_kept(s);
    let kept = kept_chars(s);
    assert("_"@ =~= seq!['_']);
    assert(kept + "_"@ =~= kept.push('_'));
}

/// A path without two colons becomes a type's name; the part before the first two
/// colons becomes a module's name, and what follows them is a path again.
pub proof fn lemma_path(part: Seq<char>, rest: Seq<char>)
    ensures
        !has_colons(part) ==> sanitized_path(part) == sanitized(pascal_case(part)),
        is_part(part) ==> sanitized_path(part + "::"@ + rest) == sanitized(snake_case(part))
            + "::"@ + sanitized_path(rest),
{
    lemma_split_path(part, rest);
    if !has_colons(part) {
        let parts = sanitized_parts(seq![part]);
        assert(parts =~= seq![sanitized(pascal_case(part))]);
        lemma_join_path(sanitized(pascal_case(part)), seq![]);
    }
    if is_part(part) {
        let tail = split(rest, "::"@);
        crate::text::lemma_join_split(rest, "::"@);
        let all = seq![part] + tail;
        let first = sanitized(snake_case(part));
        let others = sanitized_parts(tail);
        assert(sanitized_parts(all) =~= seq![first] + others) by {
            assert forall|i: int| 0 <= i < all.len() implies sanitized_parts(all)[i] == (seq![first]
                + others)[i] by {
                if i > 0 {
                    assert(all[i] == tail[i - 1]);
                }
            }
        }
        lemma_join_path(first, others);
    }
}

/// Whether no variant before `i` has its name and value.
pub open spec fn is_first_of_pair(variants: Seq<EnumVariantView>, i: int) -> bool {
    forall|j: int|
        0 <= j < i ==> (#[trigger] variants[j]).name != variants[i].name || variants[j].value
            != variants[i].value
}

/// The numbers below `n`.
pub open spec fn below(n: nat) -> Seq<int> {
    Seq::new(n, |i: int| i)
}

/// One for each variant that is the first of its name and value.
pub open spec fn firsts(variants: Seq<EnumVariantView>) -> spec_fn(int) -> nat {
    |i: int|
        if is_first_of_pair(variants, i) {
            1nat
        } else {
            0nat
        }
}

/// Merging keeps, in order, the first variant of each name and value, and drops the
/// others.
pub proof fn lemma_merged_exactly(variants: Seq<EnumVariantView>)
    ensures
        merged(variants).len() == total(below(variants.len()), firsts(variants)),
        forall|i: int|
            0 <= i < variants.len() && #[trigger] is_first_of_pair(variants, i) ==> stays_at(
                variants,
                merged(variants),
                i,
            ),
    decreases variants.len(),
{
    if variants.len() > 0 {
        let init = variants.drop_last();
        let n = variants.len() - 1;
        let last = variants.last();
        let before = merged(init);
        let all = merged(variants);
        lemma_merged_exactly(init);
        lemma_merged(init);
        assert(below(variants.len()).drop_last() =~= below(init.len()));
        assert(below(variants.len()).last() == n);
        assert forall|i: int| 0 <= i < n implies is_first_of_pair(init, i)
            == #[trigger] is_first_of_pair(variants, i) by {
            if is_first_of_pair(init, i) {
                assert forall|j: int| 0 <= j < i implies (#[trigger] variants[j]).name
                    != variants[i].name || variants[j].value != variants[i].value by {
                    assert(init[j] == variants[j]);
                }
            }
            if is_first_of_pair(variants, i) {
                assert forall|j: int| 0 <= j < i implies (#[trigger] init[j]).name != init[i].name
                    || init[j].value != init[i].value by {
                    assert(init[j] == variants[j]);
                }
            }
        }
        lemma_firsts_alike(init, variants, n);
        assert(is_first_of_pair(variants, n) == !has_variant(init, last.name, last.value)) by {
            if has_variant(init, last.name, last.value) {
                let j = choose|j: int|
                    0 <= j < init.len() && (#[trigger] init[j]).name == last.name && init[j].value
                        == last.value;
                assert(variants[j] == init[j]);
            } else {
                assert forall|j: int| 0 <= j < n implies (#[trigger] variants[j]).name
                    != variants[n].name || variants[j].value != variants[n].value by {
                    assert(init[j] == variants[j]);
                }
            }
        }
        assert(has_variant(before, last.name, last.value) == has_variant(
            init,
            last.name,
            last.value,
        ));
        assert forall|i: int|
            0 <= i < variants.len() && #[trigger] is_first_of_pair(variants, i) implies stays_at(
            variants,
            all,
            i,
        ) by {
            if i < n {
                assert(is_first_of_pair(init, i));
                assert(stays_at(init, before, i));
                lemma_firsts_alike(init, variants, i);
                let at = total(below(i as nat), firsts(init)) as int;
                assert(all[at] == before[at]);
            } else {
                assert(all == before.push(last));
                lemma_firsts_alike(init, variants, n);
            }
        }
    }
}

/// Whether variant `i` stands where the first ones before it are counted.
pub open spec fn stays_at(
    variants: Seq<EnumVariantView>,
    kept: Seq<EnumVariantView>,
    i: int,
) -> bool {
    let at = total(below(i as nat), firsts(variants));
    at < kept.len() && kept[at as int] == variants[i]
}

/// Variants behind do not change which ones are first.
proof fn lemma_firsts_alike(init: Seq<EnumVariantView>, variants: Seq<EnumVariantView>, n: int)
    requires
        0 <= n <= init.len(),
        forall|i: int|
            0 <= i < init.len() ==> is_first_of_pair(init, i) == #[trigger] is_first_of_pair(
                variants,
                i,
            ),
    ensures
        total(below(n as nat), firsts(init)) == total(below(n as nat), firsts(variants)),
{
    let s = below(n as nat);
    assert forall|k: int| 0 <= k < s.len() implies firsts(init)(#[trigger] s[k]) == firsts(
        variants,
    )(s[k]) by {
        assert(is_first_of_pair(init, k) == is_first_of_pair(variants, k));
    }
    lemma_total_same(s, firsts(init), firsts(variants));
}

/// Whether variant `j` has the name of variant `i`.
pub open spec fn same_name(variants: Seq<EnumVariantView>, i: int, j: int) -> bool {
    0 <= j < variants.len() && variants[j].name == variants[i].name
}

/// Telling variants apart puts an underscore and the value behind each name that
/// another variant has too, and changes nothing else.
pub proof fn lemma_told_apart_exactly(variants: Seq<EnumVariantView>, i: int)
    requires
        0 <= i < variants.len(),
    ensures
        renamed_apart(variants).len() == variants.len(),
        renamed_apart(variants)[i].value == variants[i].value,
        renamed_apart(variants)[i].description == variants[i].description,
        renamed_apart(variants)[i].name == if exists|j: int|
            j != i && #[trigger] same_name(variants, i, j) {
            variants[i].name + "_"@ + decimal(variants[i].value as nat)
        } else {
            variants[i].name
        },
{
    if name_is_shared(variants, i) {
        let j = choose|j: int|
            0 <= j < variants.len() && j != i && (#[trigger] variants[j]).name == variants[i].name;
        assert(same_name(variants, i, j));
    }
    if exists|j: int| j != i && #[trigger] same_name(variants, i, j) {
        let j = choose|j: int| j != i && #[trigger] same_name(variants, i, j);
        assert(variants[j].name == variants[i].name);
        assert(name_is_shared(variants, i));
    }
}

/// Whether a reference, if there is one, is the path, sanitized.
pub open spec fn path_kept(a: Option<Seq<char>>, b: Option<Seq<char>>) -> bool {
    match (a, b) {
        (Some(x), Some(y)) => y == sanitized_path(x),
        (None, None) => true,
        _ => false,
    }
}

/// Whether a peripheral is the same but for its name and its block's path.
pub open spec fn peripheral_kept(a: PeripheralView, b: PeripheralView) -> bool {
    &&& b.name == sanitized(constant_case(a.name))
    &&& b.description == a.description
    &&& b.base_address == a.base_address
    &&& path_kept(a.block, b.block)
}

/// Whether an interrupt is the same but for its name.
pub open spec fn interrupt_kept(a: InterruptView, b: InterruptView) -> bool {
    &&& b.name == sanitized(constant_case(a.name))
    &&& b.description == a.description
    &&& b.value == a.value
}

/// Whether a device is the same but for names and references.
pub open spec fn device_kept(a: DeviceView, b: DeviceView) -> bool {
    &&& b.peripherals.len() == a.peripherals.len()
    &&& forall|j: int|
        0 <= j < a.peripherals.len() ==> peripheral_kept(
            #[trigger] a.peripherals[j],
            b.peripherals[j],
        )
    &&& b.interrupts.len() == a.interrupts.len()
    &&& forall|j: int|
        0 <= j < a.interrupts.len() ==> interrupt_kept(#[trigger] a.interrupts[j], b.interrupts[j])
}

/// Whether an inner part is the same but for its reference.
pub open spec fn inner_kept(a: BlockItemInnerView, b: BlockItemInnerView) -> bool {
    match (a, b) {
        (BlockItemInnerView::Block { block: x }, BlockItemInnerView::Block { block: y }) => y
            == sanitized_path(x),
        (
            BlockItemInnerView::Register { access: a1, bit_size: s1, fieldset: f1 },
            BlockItemInnerView::Register { access: a2, bit_size: s2, fieldset: f2 },
        ) => a2 == a1 && s2 == s1 && path_kept(f1, f2),
        _ => false,
    }
}

/// Whether an item is the same but for its name and its reference.
pub open spec fn item_kept(a: BlockItemView, b: BlockItemView) -> bool {
    &&& b.name == sanitized(snake_case(a.name))
    &&& b.description == a.description
    &&& b.array == a.array
    &&& b.byte_offset == a.byte_offset
    &&& inner_kept(a.inner, b.inner)
}

/// Whether a block is the same but for names and references.
pub open spec fn block_kept(a: BlockView, b: BlockView) -> bool {
    &&& path_kept(a.extends, b.extends)
    &&& b.description == a.description
    &&& b.items.len() == a.items.len()
    &&& forall|j: int| 0 <= j < a.items.len() ==> item_kept(#[trigger] a.items[j], b.items[j])
}

/// Whether a field is the same but for its name and its enum's path.
pub open spec fn field_kept(a: FieldView, b: FieldView) -> bool {
    &&& b.name == sanitized(snake_case(a.name))
    &&& b.description == a.description
    &&& b.bit_offset == a.bit_offset
    &&& b.bit_size == a.bit_size
    &&& b.array == a.array
    &&& path_kept(a.enumm, b.enumm)
}

/// Whether a fieldset is the same but for names and references.
pub open spec fn fieldset_kept(a: FieldSetView, b: FieldSetView) -> bool {
    &&& path_kept(a.extends, b.extends)
    &&& b.description == a.description
    &&& b.bit_size == a.bit_size
    &&& b.fields.len() == a.fields.len()
    &&& forall|j: int| 0 <= j < a.fields.len() ==> field_kept(#[trigger] a.fields[j], b.fields[j])
}

/// Whether variants are the same but for their names.
pub open spec fn variants_kept(a: Seq<EnumVariantView>, b: Seq<EnumVariantView>) -> bool {
    &&& b.len() == a.len()
    &&& forall|j: int|
        0 <= j < a.len() ==> {
            &&& (#[trigger] b[j]).name == sanitized(constant_case(a[j].name))
            &&& b[j].description == a[j].description
            &&& b[j].value == a[j].value
        }
}

/// Whether an enum is the same but for its variants, which are renamed, then merged
/// and then told apart.
pub open spec fn enum_kept(a: EnumView, b: EnumView) -> bool {
    &&& b.description == a.description
    &&& b.bit_size == a.bit_size
    &&& exists|renamed: Seq<EnumVariantView>| #[trigger]
        variants_kept(a.variants, renamed) && b.variants == renamed_apart(merged(renamed))
}

/// The rule by which a device is kept.
pub open spec fn device_rule() -> spec_fn(DeviceView, DeviceView) -> bool {
    |a: DeviceView, b: DeviceView| device_kept(a, b)
}

/// The rule by which a block is kept.
pub open spec fn block_rule() -> spec_fn(BlockView, BlockView) -> bool {
    |a: BlockView, b: BlockView| block_kept(a, b)
}

/// The rule by which a fieldset is kept.
pub open spec fn fieldset_rule() -> spec_fn(FieldSetView, FieldSetView) -> bool {
    |a: FieldSetView, b: FieldSetView| fieldset_kept(a, b)
}

/// The rule by which an enum is kept.
pub open spec fn enum_rule() -> spec_fn(EnumView, EnumView) -> bool {
    |a: EnumView, b: EnumView| enum_kept(a, b)
}

/// Whether entry `k` of the new map is what became of an entry.
pub open spec fn became<V>(
    old_entry: (Seq<char>, V),
    new: Entries<V>,
    k: int,
    kept: spec_fn(V, V) -> bool,
) -> bool {
    &&& 0 <= k < new.len()
    &&& new[k].0 == sanitized_path(old_entry.0)
    &&& kept(old_entry.1, new[k].1)
}

/// Whether an entry is found again in the new map.
pub open spec fn has_become<V>(
    old_entry: (Seq<char>, V),
    new: Entries<V>,
    kept: spec_fn(V, V) -> bool,
) -> bool {
    exists|k: int| became(old_entry, new, k, kept)
}

/// Whether entry `k` of the new map is what became of an entry of the old one.
pub open spec fn has_source<V>(
    before: Entries<V>,
    after: Entries<V>,
    k: int,
    kept: spec_fn(V, V) -> bool,
) -> bool {
    exists|i: int| 0 <= i < before.len() && became(#[trigger] before[i], after, k, kept)
}

/// Whether a map holds what became of each entry of another, and nothing else, in
/// the order of the names.
pub open spec fn map_kept<V>(
    before: Entries<V>,
    after: Entries<V>,
    kept: spec_fn(V, V) -> bool,
) -> bool {
    &&& after.len() == before.len()
    &&& keys_increase(after)
    &&& forall|i: int|
        0 <= i < before.len() ==> has_become(#[trigger] before[i], after, kept)
    &&& forall|k: int| 0 <= k < after.len() ==> #[trigger] has_source(before, after, k, kept)
}

/// Sanitizing a register map keeps everything but names and references: each
/// device, block, fieldset and enum is found under its sanitized path, and holds
/// what it held, field by field.
pub proof fn lemma_all_kept(ir: IrView, new: IrView)
    requires
        legacy_sanitized(ir) == Ok::<IrView, NameClashView>(new),
    ensures
        map_kept(ir.devices, new.devices, device_rule()),
        map_kept(ir.blocks, new.blocks, block_rule()),
        map_kept(ir.fieldsets, new.fieldsets, fieldset_rule()),
        map_kept(ir.enums, new.enums, enum_rule()),
{
    let m = sanitizing();
    lemma_map_kept::<Device>(ir.devices, NameKind::Device);
    lemma_map_kept::<Block>(ir.blocks, NameKind::Block);
    lemma_map_kept::<FieldSet>(ir.fieldsets, NameKind::Fieldset);
    lemma_map_kept::<Enum>(ir.enums, NameKind::Enum);
    let mapped = names_mapped(ir, m)->Ok_0;
    let dk = device_rule();
    assert forall|k: int| 0 <= k < new.devices.len() implies #[trigger] has_source(
        ir.devices,
        new.devices,
        k,
        dk,
    ) by {
        let i = lemma_entry_source::<Device>(ir.devices, NameKind::Device, m, k);
        lemma_device_kept(ir.devices[i].1);
        assert(became(ir.devices[i], new.devices, k, dk));
    }
    assert forall|i: int| 0 <= i < ir.devices.len() implies has_become(
        #[trigger] ir.devices[i],
        new.devices,
        dk,
    ) by {
        let k = choose|k: int|
            #![trigger mapped.devices[k]]
            0 <= k < mapped.devices.len() && mapped.devices[k] == (
                sanitized_name(NameKind::Device, ir.devices[i].0),
                Device::mapped(ir.devices[i].1, m),
            );
        lemma_device_kept(ir.devices[i].1);
        assert(became(ir.devices[i], new.devices, k, dk));
    }
    let bk = block_rule();
    assert forall|k: int| 0 <= k < new.blocks.len() implies #[trigger] has_source(
        ir.blocks,
        new.blocks,
        k,
        bk,
    ) by {
        let i = lemma_entry_source::<Block>(ir.blocks, NameKind::Block, m, k);
        lemma_block_kept(ir.blocks[i].1);
        assert(became(ir.blocks[i], new.blocks, k, bk));
    }
    assert forall|i: int| 0 <= i < ir.blocks.len() implies has_become(
        #[trigger] ir.blocks[i],
        new.blocks,
        bk,
    ) by {
        let k = choose|k: int|
            #![trigger mapped.blocks[k]]
            0 <= k < mapped.blocks.len() && mapped.blocks[k] == (
                sanitized_name(NameKind::Block, ir.blocks[i].0),
                Block::mapped(ir.blocks[i].1, m),
            );
        lemma_block_kept(ir.blocks[i].1);
        assert(became(ir.blocks[i], new.blocks, k, bk));
    }
    let fk = fieldset_rule();
    assert forall|k: int| 0 <= k < new.fieldsets.len() implies #[trigger] has_source(
        ir.fieldsets,
        new.fieldsets,
        k,
        fk,
    ) by {
        let i = lemma_entry_source::<FieldSet>(ir.fieldsets, NameKind::Fieldset, m, k);
        lemma_fieldset_kept(ir.fieldsets[i].1);
        assert(became(ir.fieldsets[i], new.fieldsets, k, fk));
    }
    assert forall|i: int| 0 <= i < ir.fieldsets.len() implies has_become(
        #[trigger] ir.fieldsets[i],
        new.fieldsets,
        fk,
    ) by {
        let k = choose|k: int|
            #![trigger mapped.fieldsets[k]]
            0 <= k < mapped.fieldsets.len() && mapped.fieldsets[k] == (
                sanitized_name(NameKind::Fieldset, ir.fieldsets[i].0),
                FieldSet::mapped(ir.fieldsets[i].1, m),
            );
        lemma_fieldset_kept(ir.fieldsets[i].1);
        assert(became(ir.fieldsets[i], new.fieldsets, k, fk));
    }
    let ek = enum_rule();
    assert forall|k: int| 0 <= k < new.enums.len() implies #[trigger] has_source(
        ir.enums,
        new.enums,
        k,
        ek,
    ) by {
        let i = lemma_entry_source::<Enum>(ir.enums, NameKind::Enum, m, k);
        lemma_enum_kept(ir.enums[i].1);
        assert(new.enums[k].1 == settled(mapped.enums[k].1));
        assert(became(ir.enums[i], new.enums, k, ek));
    }
    assert forall|i: int| 0 <= i < ir.enums.len() implies has_become(
        #[trigger] ir.enums[i],
        new.enums,
        ek,
    ) by {
        let k = choose|k: int|
            #![trigger mapped.enums[k]]
            0 <= k < mapped.enums.len() && mapped.enums[k] == (
                sanitized_name(NameKind::Enum, ir.enums[i].0),
                Enum::mapped(ir.enums[i].1, m),
            );
        lemma_enum_kept(ir.enums[i].1);
        assert(new.enums[k].1 == settled(mapped.enums[k].1));
        assert(became(ir.enums[i], new.enums, k, ek));
    }
    assert forall|a: int, b: int| 0 <= a < b < new.enums.len() implies crate::text::less(
        #[trigger] new.enums[a].0,
        #[trigger] new.enums[b].0,
    ) by {
        assert(crate::text::less(mapped.enums[a].0, mapped.enums[b].0));
    }
}

/// A map whose names are mapped holds each entry under its new name.
proof fn lemma_map_kept<T: Named>(entries: Entries<T::V>, kind: NameKind)
    requires
        remapped::<T>(entries, kind, sanitizing()) is Ok,
    ensures
        ({
            let new = remapped::<T>(entries, kind, sanitizing())->Ok_0;
            &&& keys_increase(new)
            &&& new.len() == entries.len()
            &&& forall|i: int|
                0 <= i < entries.len() ==> exists|k: int|
                    #![trigger new[k]]
                    0 <= k < new.len() && new[k] == (
                        sanitized_name(kind, (#[trigger] entries[i]).0),
                        T::mapped(entries[i].1, sanitizing()),
                    )
        }),
{
    let m = sanitizing();
    let new = remapped::<T>(entries, kind, m)->Ok_0;
    lemma_remapped::<T>(entries, kind, m);
    assert forall|i: int| 0 <= i < entries.len() implies exists|k: int|
        #![trigger new[k]]
        0 <= k < new.len() && new[k] == (
            sanitized_name(kind, (#[trigger] entries[i]).0),
            T::mapped(entries[i].1, m),
        ) by {
        let key = m(kind, entries[i].0);
        assert(lookup(new, key) == Some(T::mapped(entries[i].1, m)));
        let k = choose|k: int| #[trigger] is_entry(new, key, k);
        assert(is_entry(new, key, k));
        assert(new[k] == (key, T::mapped(entries[i].1, m)));
    }
}

/// Mapping the names of a device keeps the rest.
proof fn lemma_device_kept(d: DeviceView)
    ensures
        device_kept(d, Device::mapped(d, sanitizing())),
{
    let m = sanitizing();
    let r = Device::mapped(d, m);
    assert forall|j: int| 0 <= j < d.peripherals.len() implies peripheral_kept(
        #[trigger] d.peripherals[j],
        r.peripherals[j],
    ) by {
        assert(r.peripherals[j] == Peripheral::mapped(d.peripherals[j], m));
    }
    assert forall|j: int| 0 <= j < d.interrupts.len() implies interrupt_kept(
        #[trigger] d.interrupts[j],
        r.interrupts[j],
    ) by {
        assert(r.interrupts[j] == Interrupt::mapped(d.interrupts[j], m));
    }
}

/// Mapping the names of a block keeps the rest.
proof fn lemma_block_kept(b: BlockView)
    ensures
        block_kept(b, Block::mapped(b, sanitizing())),
{
    let m = sanitizing();
    let r = Block::mapped(b, m);
    assert forall|j: int| 0 <= j < b.items.len() implies item_kept(
        #[trigger] b.items[j],
        r.items[j],
    ) by {
        assert(r.items[j] == BlockItem::mapped(b.items[j], m));
    }
}

/// Mapping the names of a fieldset keeps the rest.
proof fn lemma_fieldset_kept(f: FieldSetView)
    ensures
        fieldset_kept(f, FieldSet::mapped(f, sanitizing())),
{
    let m = sanitizing();
    let r = FieldSet::mapped(f, m);
    assert forall|j: int| 0 <= j < f.fields.len() implies field_kept(
        #[trigger] f.fields[j],
        r.fields[j],
    ) by {
        assert(r.fields[j] == Field::mapped(f.fields[j], m));
    }
}

/// Mapping the names of an enum keeps the rest.
proof fn lemma_enum_kept(e: EnumView)
    ensures
        enum_kept(e, settled(Enum::mapped(e, sanitizing()))),
{
    let m = sanitizing();
    let all = Enum::mapped(e, m).variants;
    assert forall|j: int| 0 <= j < all.len() implies (#[trigger] all[j])
        == EnumVariant::mapped(e.variants[j], m) by {}
    assert(variants_kept(e.variants, all));
}

/// Whether two names of a map become this path, and no two become one before the
/// second of them.
pub open spec fn first_clash<V>(entries: Entries<V>, path: Seq<char>) -> bool {
    exists|i: int, j: int|
        {
            &&& 0 <= i < j < entries.len()
            &&& sanitized_path((#[trigger] entries[i]).0) == path
            &&& sanitized_path((#[trigger] entries[j]).0) == path
            &&& no_clash(entries.take(j))
        }
}

/// Whether no two names of a map become one path.
pub open spec fn no_clash<V>(entries: Entries<V>) -> bool {
    forall|i: int, j: int|
        0 <= i < j < entries.len() ==> sanitized_path((#[trigger] entries[i]).0) != sanitized_path(
            (#[trigger] entries[j]).0,
        )
}

/// A register map can be sanitized where no two devices, no two blocks, no two
/// fieldsets and no two enums would get the same path. Elsewhere the first two that
/// would are told of: devices come first, then blocks, fieldsets and enums.
pub proof fn lemma_clash(ir: IrView)
    ensures
        match legacy_sanitized(ir) {
            Ok(_) => {
                &&& no_clash(ir.devices)
                &&& no_clash(ir.blocks)
                &&& no_clash(ir.fieldsets)
                &&& no_clash(ir.enums)
            },
            Err(e) => match e.kind {
                NameKind::Device => first_clash(ir.devices, e.name),
                NameKind::Block => no_clash(ir.devices) && first_clash(ir.blocks, e.name),
                NameKind::Fieldset => {
                    &&& no_clash(ir.devices)
                    &&& no_clash(ir.blocks)
                    &&& first_clash(ir.fieldsets, e.name)
                },
                NameKind::Enum => {
                    &&& no_clash(ir.devices)
                    &&& no_clash(ir.blocks)
                    &&& no_clash(ir.fieldsets)
                    &&& first_clash(ir.enums, e.name)
                },
                _ => false,
            },
        },
{
    lemma_map_clash::<Device>(ir.devices, NameKind::Device);
    lemma_map_clash::<Block>(ir.blocks, NameKind::Block);
    lemma_map_clash::<FieldSet>(ir.fieldsets, NameKind::Fieldset);
    lemma_map_clash::<Enum>(ir.enums, NameKind::Enum);
}

/// What a clash is seen to hold.
pub proof fn lemma_clash_reads(x: NameClash)
    ensures
        x@.kind == x.kind,
        x@.name == x.name@,
{
}

/// A map of names is sanitized only where no two names become one.
proof fn lemma_no_clash<T: Named>(entries: Entries<T::V>, kind: NameKind)
    requires
        kind is Device || kind is Block || kind is Fieldset || kind is Enum,
        remapped::<T>(entries, kind, sanitizing()) is Ok,
    ensures
        no_clash(entries),
{
    let m = sanitizing();
    lemma_remapped::<T>(entries, kind, m);
    assert forall|i: int, j: int| 0 <= i < j < entries.len() implies sanitized_path(
        (#[trigger] entries[i]).0,
    ) != sanitized_path((#[trigger] entries[j]).0) by {
        assert(m(kind, entries[i].0) != m(kind, entries[j].0));
    }
}

/// A new name that is taken is that of an earlier entry.
proof fn lemma_taken<T: Named>(entries: Entries<T::V>, kind: NameKind, name: Seq<char>) -> (i: int)
    requires
        kind is Device || kind is Block || kind is Fieldset || kind is Enum,
        remapped::<T>(entries, kind, sanitizing()) is Ok,
        has_key(remapped::<T>(entries, kind, sanitizing())->Ok_0, name),
    ensures
        0 <= i < entries.len(),
        sanitized_path(entries[i].0) == name,
{
    let m = sanitizing();
    lemma_remapped::<T>(entries, kind, m);
    let i = choose|i: int| 0 <= i < entries.len() && m(kind, (#[trigger] entries[i]).0) == name;
    assert(m(kind, entries[i].0) == name);
    i
}

/// Where a map of names cannot be sanitized, the first two names that become one are
/// told of.
proof fn lemma_clash_place<T: Named>(
    entries: Entries<T::V>,
    kind: NameKind,
    e: NameClashView,
) -> (r: (int, int))
    requires
        kind is Device || kind is Block || kind is Fieldset || kind is Enum,
        remapped::<T>(entries, kind, sanitizing()) == Err::<Entries<T::V>, NameClashView>(e),
    ensures
        e.kind == kind,
        0 <= r.0 < r.1 < entries.len(),
        sanitized_path(entries[r.0].0) == e.name,
        sanitized_path(entries[r.1].0) == e.name,
        no_clash(entries.take(r.1)),
    decreases entries.len(),
{
    let init = entries.drop_last();
    let n = entries.len() - 1;
    match remapped::<T>(init, kind, sanitizing()) {
        Err(_) => {
            let (i, j) = lemma_clash_place::<T>(init, kind, e);
            assert(init.take(j) =~= entries.take(j));
            assert(init[i] == entries[i] && init[j] == entries[j]);
            (i, j)
        },
        Ok(_) => {
            lemma_no_clash::<T>(init, kind);
            let i = lemma_taken::<T>(init, kind, e.name);
            assert(entries.take(n) =~= init);
            assert(init[i] == entries[i]);
            (i, n)
        },
    }
}

/// A map of names is sanitized, or the first two names that become one are told of.
proof fn lemma_map_clash<T: Named>(entries: Entries<T::V>, kind: NameKind)
    requires
        kind is Device || kind is Block || kind is Fieldset || kind is Enum,
    ensures
        match remapped::<T>(entries, kind, sanitizing()) {
            Ok(_) => no_clash(entries),
            Err(e) => e.kind == kind && first_clash(entries, e.name),
        },
{
    match remapped::<T>(entries, kind, sanitizing()) {
        Ok(_) => {
            lemma_no_clash::<T>(entries, kind);
        },
        Err(e) => {
            let (i, j) = lemma_clash_place::<T>(entries, kind, e);
            assert(sanitized_path(entries[i].0) == e.name);
            assert(sanitized_path(entries[j].0) == e.name);
        },
    }
}

} // verus!
