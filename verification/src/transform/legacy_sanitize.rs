//! Sanitizes every name of a register map: each becomes an identifier in the case
//! that Rust has for its kind.
use crate::ir::{Duplicate, Enum, EnumView, IrView, IR};
use crate::name_map::{Entries, NameMap};
use crate::text::{all_chars, join, join_all, split, split_at_each};
use crate::transform::names::{
    map_names, names_mapped, NameClash, NameClashView, NameKind, Renaming,
};
use crate::transform::sanitize::{
    merge_duplicate_variants, merged, rename_duplicate_variants, renamed_apart, sanitize_ident,
    sanitized,
};
use vstd::prelude::*;

verus! {

broadcast use vstd::seq::group_seq_axioms;

/// The text in snake case, as `inflections::case::to_snake_case` gives it.
pub uninterp spec fn snake_case(s: Seq<char>) -> Seq<char>;

/// The text in constant case, as `inflections::case::to_constant_case` gives it.
pub uninterp spec fn constant_case(s: Seq<char>) -> Seq<char>;

/// The text in Pascal case, as `inflections::case::to_pascal_case` gives it.
pub uninterp spec fn pascal_case(s: Seq<char>) -> Seq<char>;

/// `inflections::case::to_snake_case`: the result depends on the text alone.
pub assume_specification[ inflections::case::to_snake_case ](string: &str) -> (r: String)
    ensures
        r@ == snake_case(string@),
;

/// `inflections::case::to_constant_case`: the result depends on the text alone.
pub assume_specification[ inflections::case::to_constant_case ](string: &str) -> (r: String)
    ensures
        r@ == constant_case(string@),
;

/// `inflections::case::to_pascal_case`: the result depends on the text alone.
pub assume_specification[ inflections::case::to_pascal_case ](string: &str) -> (r: String)
    ensures
        r@ == pascal_case(string@),
;

/// An identifier in snake case.
pub fn to_sanitized_snake_case(s: &str) -> (r: String)
    ensures
        r@ == sanitized(snake_case(s@)),
{
    sanitize_ident(inflections::case::to_snake_case(s))
}

/// An identifier in constant case.
pub fn to_sanitized_constant_case(s: &str) -> (r: String)
    ensures
        r@ == sanitized(constant_case(s@)),
{
    sanitize_ident(inflections::case::to_constant_case(s))
}

/// An identifier in Pascal case.
pub fn to_sanitized_pascal_case(s: &str) -> (r: String)
    ensures
        r@ == sanitized(pascal_case(s@)),
{
    sanitize_ident(inflections::case::to_pascal_case(s))
}

/// The parts of a path as identifiers: the last in Pascal case, those before it in
/// snake case.
pub open spec fn sanitized_parts(parts: Seq<Seq<char>>) -> Seq<Seq<char>> {
    parts.map(
        |i: int, part: Seq<char>|
            if i == parts.len() - 1 {
                sanitized(pascal_case(part))
            } else {
                sanitized(snake_case(part))
            },
    )
}

/// The path with its parts sanitized.
pub open spec fn sanitized_path(p: Seq<char>) -> Seq<char> {
    join(sanitized_parts(split(p, "::"@)), "::"@)
}

/// Sanitizes a path: the last part becomes a type's name, those before it modules'
/// names.
pub fn sanitize_path(p: &str) -> (r: String)
    ensures
        r@ == sanitized_path(p@),
{
    proof {
        reveal_strlit("::");
    }
    let parts = split_at_each(p, "::");
    let ghost all = all_chars(parts@);
    let mut done: Vec<String> = Vec::new();
    let mut i: usize = 0;
    while i < parts.len()
        invariant
            i <= parts@.len(),
            all == all_chars(parts@),
            done@.len() == i,
            forall|j: int| 0 <= j < i ==> (#[trigger] done@[j])@ == sanitized_parts(all)[j],
        decreases parts@.len() - i,
    {
        let part = parts[i].as_str();
        assert(all[i as int] == part@);
        if i == parts.len() - 1 {
            done.push(to_sanitized_pascal_case(part));
        } else {
            done.push(to_sanitized_snake_case(part));
        }
        i += 1;
    }
    assert(all_chars(done@) =~= sanitized_parts(all));
    join_all(&done, "::")
}

/// The sanitized name of a thing of this kind.
pub open spec fn sanitized_name(kind: NameKind, name: Seq<char>) -> Seq<char> {
    match kind {
        NameKind::Device => sanitized_path(name),
        NameKind::DevicePeripheral => sanitized(constant_case(name)),
        NameKind::DeviceInterrupt => sanitized(constant_case(name)),
        NameKind::Block => sanitized_path(name),
        NameKind::Fieldset => sanitized_path(name),
        NameKind::Enum => sanitized_path(name),
        NameKind::BlockItem => sanitized(snake_case(name)),
        NameKind::Field => sanitized(snake_case(name)),
        NameKind::EnumVariant => sanitized(constant_case(name)),
    }
}

/// The sanitized names, as one function.
pub open spec fn sanitizing() -> Renaming {
    |kind: NameKind, name: Seq<char>| sanitized_name(kind, name)
}

/// Sanitizes the name of a thing of this kind.
pub fn sanitize_name(kind: NameKind, name: &str) -> (r: String)
    ensures
        r@ == sanitized_name(kind, name@),
{
    match kind {
        NameKind::Device => sanitize_path(name),
        NameKind::DevicePeripheral => to_sanitized_constant_case(name),
        NameKind::DeviceInterrupt => to_sanitized_constant_case(name),
        NameKind::Block => sanitize_path(name),
        NameKind::Fieldset => sanitize_path(name),
        NameKind::Enum => sanitize_path(name),
        NameKind::BlockItem => to_sanitized_snake_case(name),
        NameKind::Field => to_sanitized_snake_case(name),
        NameKind::EnumVariant => to_sanitized_constant_case(name),
    }
}

/// An enum whose variants have been merged and told apart.
pub open spec fn settled(e: EnumView) -> EnumView {
    EnumView { variants: renamed_apart(merged(e.variants)), ..e }
}

/// The enums, each with its variants merged and told apart.
pub open spec fn all_settled(enums: Entries<EnumView>) -> Entries<EnumView> {
    enums.map_values(|e: (Seq<char>, EnumView)| (e.0, settled(e.1)))
}

/// Merges the duplicate variants of every enum, then tells apart those that still
/// share a name.
fn settle_all(enums: NameMap<Enum>) -> (r: NameMap<Enum>)
    ensures
        r@ == all_settled(enums@),
{
    let ghost all = enums@;
    let mut enums = enums;
    let mut i: usize = 0;
    while i < enums.len()
        invariant
            i <= all.len(),
            enums@.len() == all.len(),
            forall|j: int| 0 <= j < i ==> #[trigger] enums@[j] == all_settled(all)[j],
            forall|j: int| i <= j < all.len() ==> #[trigger] enums@[j] == all[j],
        decreases all.len() - i,
    {
        let mut enumm = enums.value_at(i).duplicate();
        merge_duplicate_variants(&mut enumm);
        rename_duplicate_variants(&mut enumm);
        enums = enums.replace_at(i, enumm);
        i += 1;
    }
    assert(enums@ =~= all_settled(all));
    enums
}

/// The register map with its names sanitized, or the names that clash.
pub open spec fn legacy_sanitized(ir: IrView) -> Result<IrView, NameClashView> {
    match names_mapped(ir, sanitizing()) {
        Ok(mapped) => Ok(IrView { enums: all_settled(mapped.enums), ..mapped }),
        Err(e) => Err(e),
    }
}

/// The transform that sanitizes every name.
#[derive(Debug)]
pub struct LegacySanitize {}

impl LegacySanitize {
    /// Sanitizes the names of a register map. Where two names become one, the map
    /// stays as it is.
    pub fn run(&self, ir: &mut IR) -> (r: Result<(), NameClash>)
        ensures
            match r {
                Ok(_) => legacy_sanitized(old(ir)@) == Ok::<IrView, NameClashView>(final(ir)@),
                Err(e) => {
                    &&& legacy_sanitized(old(ir)@) == Err::<IrView, NameClashView>(e@)
                    &&& final(ir)@ == old(ir)@
                },
            },
    {
        let f = |kind: NameKind, name: &str| -> (r: String)
            ensures
                r@ == sanitized_name(kind, name@),
            { sanitize_name(kind, name) };
        match map_names(ir, &f, Ghost(sanitizing())) {
            Ok(mapped) => {
                *ir = IR {
                    devices: mapped.devices,
                    blocks: mapped.blocks,
                    fieldsets: mapped.fieldsets,
                    enums: settle_all(mapped.enums),
                };
                Ok(())
            },
            Err(e) => Err(e),
        }
    }
}

} // verus!
