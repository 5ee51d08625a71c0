//! Makes names fit to be Rust identifiers, and tells the variants of an enum
//! apart.
use crate::ir::{views, Duplicate, Enum, EnumVariant, EnumVariantView, EnumView};
use crate::text::{chars_of, copy_opt, decimal, decimal_of, same};
use vstd::prelude::*;

verus! {

broadcast use vstd::seq::group_seq_axioms;

/// Whether a character is one that vendors use in names but that no identifier
/// can hold.
pub open spec fn is_dropped(c: char) -> bool {
    c == '(' || c == ')' || c == '[' || c == ']' || c == '/' || c == ' ' || c == '-'
}

/// Whether a character is a decimal digit.
pub open spec fn is_digit(c: char) -> bool {
    '0' as u32 <= c as u32 && c as u32 <= '9' as u32
}

/// Whether a name is a keyword of Rust.
pub open spec fn is_keyword(s: Seq<char>) -> bool {
    ||| s == "abstract"@
    ||| s == "as"@
    ||| s == "async"@
    ||| s == "await"@
    ||| s == "become"@
    ||| s == "box"@
    ||| s == "break"@
    ||| s == "const"@
    ||| s == "continue"@
    ||| s == "crate"@
    ||| s == "do"@
    ||| s == "dyn"@
    ||| s == "else"@
    ||| s == "enum"@
    ||| s == "extern"@
    ||| s == "false"@
    ||| s == "final"@
    ||| s == "fn"@
    ||| s == "for"@
    ||| s == "if"@
    ||| s == "impl"@
    ||| s == "in"@
    ||| s == "let"@
    ||| s == "loop"@
    ||| s == "macro"@
    ||| s == "match"@
    ||| s == "mod"@
    ||| s == "move"@
    ||| s == "mut"@
    ||| s == "override"@
    ||| s == "priv"@
    ||| s == "pub"@
    ||| s == "ref"@
    ||| s == "return"@
    ||| s == "self"@
    ||| s == "Self"@
    ||| s == "static"@
    ||| s == "struct"@
    ||| s == "super"@
    ||| s == "trait"@
    ||| s == "true"@
    ||| s == "try"@
    ||| s == "type"@
    ||| s == "typeof"@
    ||| s == "unsafe"@
    ||| s == "unsized"@
    ||| s == "use"@
    ||| s == "virtual"@
    ||| s == "where"@
    ||| s == "while"@
    ||| s == "yield"@
}

/// The characters of `s` that an identifier can hold.
pub open spec fn kept_chars(s: Seq<char>) -> Seq<char>
    decreases s.len(),
{
    if s.len() == 0 {
        seq![]
    } else if is_dropped(s.last()) {
        kept_chars(s.drop_last())
    } else {
        kept_chars(s.drop_last()).push(s.last())
    }
}

/// A name with a mark where it would not be an identifier: before a digit, behind
/// a keyword.
pub open spec fn marked(s: Seq<char>) -> Seq<char> {
    if s.len() > 0 && is_digit(s[0]) {
        "_"@ + s
    } else if is_keyword(s) {
        s + "_"@
    } else {
        s
    }
}

/// The identifier that is made of a name.
pub open spec fn sanitized(s: Seq<char>) -> Seq<char> {
    marked(kept_chars(s))
}

/// Whether a name is a keyword of Rust.
fn check_keyword(s: &str) -> (r: bool)
    ensures
        r == is_keyword(s@),
{
    same(s, "abstract") || same(s, "as") || same(s, "async") || same(s, "await") || same(
        s,
        "become",
    ) || same(s, "box") || same(s, "break") || same(s, "const") || same(s, "continue") || same(
        s,
        "crate",
    ) || same(s, "do") || same(s, "dyn") || same(s, "else") || same(s, "enum") || same(
        s,
        "extern",
    ) || same(s, "false") || same(s, "final") || same(s, "fn") || same(s, "for") || same(s, "if")
        || same(s, "impl") || same(s, "in") || same(s, "let") || same(s, "loop") || same(
        s,
        "macro",
    ) || same(s, "match") || same(s, "mod") || same(s, "move") || same(s, "mut") || same(
        s,
        "override",
    ) || same(s, "priv") || same(s, "pub") || same(s, "ref") || same(s, "return") || same(
        s,
        "self",
    ) || same(s, "Self") || same(s, "static") || same(s, "struct") || same(s, "super") || same(
        s,
        "trait",
    ) || same(s, "true") || same(s, "try") || same(s, "type") || same(s, "typeof") || same(
        s,
        "unsafe",
    ) || same(s, "unsized") || same(s, "use") || same(s, "virtual") || same(s, "where") || same(
        s,
        "while",
    ) || same(s, "yield")
}

/// Makes an identifier of a name.
pub fn sanitize_ident(ident: String) -> (r: String)
    ensures
        r@ == sanitized(ident@),
{
    let chars = chars_of(ident.as_str());
    let ghost all = chars@;
    let mut kept = String::new();
    let mut i: usize = 0;
    while i < chars.len()
        invariant
            i <= chars@.len(),
            all == chars@,
            kept@ == kept_chars(all.take(i as int)),
        decreases chars@.len() - i,
    {
        let c = chars[i];
        assert(all.take(i + 1).drop_last() =~= all.take(i as int));
        if c != '(' && c != ')' && c != '[' && c != ']' && c != '/' && c != ' ' && c != '-' {
            kept.push(c);
        }
        i += 1;
    }
    assert(all.take(i as int) =~= all);
    let first = chars_of(kept.as_str());
    if first.len() > 0 && '0' as u32 <= first[0] as u32 && first[0] as u32 <= '9' as u32 {
        "_".to_owned().concat(kept.as_str())
    } else if check_keyword(kept.as_str()) {
        kept.concat("_")
    } else {
        kept
    }
}

/// Whether the variants hold one of this name and value.
pub open spec fn has_variant(variants: Seq<EnumVariantView>, name: Seq<char>, value: u64) -> bool {
    exists|i: int|
        0 <= i < variants.len() && (#[trigger] variants[i]).name == name && variants[i].value
            == value
}

/// The variants without those that repeat the name and the value of one before.
pub open spec fn merged(variants: Seq<EnumVariantView>) -> Seq<EnumVariantView>
    decreases variants.len(),
{
    if variants.len() == 0 {
        seq![]
    } else {
        let before = merged(variants.drop_last());
        let last = variants.last();
        if has_variant(before, last.name, last.value) {
            before
        } else {
            before.push(last)
        }
    }
}

/// Merges the variants of an enum that have the same name and value: the first of
/// them stays.
pub fn merge_duplicate_variants(enumm: &mut Enum)
    ensures
        final(enumm)@ == (EnumView { variants: merged(old(enumm)@.variants), ..old(enumm)@ }),
{
    let ghost all = enumm@.variants;
    let mut kept: Vec<EnumVariant> = Vec::new();
    assert(views(kept@) =~= merged(all.take(0)));
    let mut i: usize = 0;
    while i < enumm.variants.len()
        invariant
            i <= all.len(),
            all == views(enumm.variants@),
            *enumm == *old(enumm),
            views(kept@) == merged(all.take(i as int)),
        decreases all.len() - i,
    {
        let variant = &enumm.variants[i];
        let ghost before = views(kept@);
        let mut seen: bool = false;
        let mut k: usize = 0;
        while k < kept.len()
            invariant
                k <= kept@.len(),
                before == views(kept@),
                seen == (exists|j: int|
                    0 <= j < k && (#[trigger] before[j]).name == variant.name@ && before[j].value
                        == variant.value),
            decreases kept@.len() - k,
        {
            assert(before[k as int] == kept@[k as int]@);
            if kept[k].value == variant.value && kept[k].name == variant.name {
                seen = true;
            }
            k += 1;
        }
        if !seen {
            kept.push(variant.duplicate());
        }
        proof {
            let now = all.take(i + 1);
            assert(now.drop_last() =~= all.take(i as int));
            assert(now.last() == variant@);
            if !seen {
                assert(views(kept@) =~= before.push(variant@));
            }
        }
        i += 1;
    }
    assert(all.take(i as int) =~= all);
    enumm.variants = kept;
}

/// Whether another variant has the name of variant `i`.
pub open spec fn name_is_shared(variants: Seq<EnumVariantView>, i: int) -> bool {
    exists|j: int|
        0 <= j < variants.len() && j != i && (#[trigger] variants[j]).name == variants[i].name
}

/// A name that tells a variant apart by its value.
pub open spec fn told_apart(v: EnumVariantView) -> EnumVariantView {
    EnumVariantView { name: v.name + "_"@ + decimal(v.value as nat), ..v }
}

/// The variants, with the value behind each name that several of them have.
pub open spec fn renamed_apart(variants: Seq<EnumVariantView>) -> Seq<EnumVariantView> {
    Seq::new(
        variants.len(),
        |i: int|
            if name_is_shared(variants, i) {
                told_apart(variants[i])
            } else {
                variants[i]
            },
    )
}

/// Renames the variants of an enum that have the same name but different values:
/// each takes its value behind its name.
pub fn rename_duplicate_variants(enumm: &mut Enum)
    ensures
        final(enumm)@ == (EnumView {
            variants: renamed_apart(old(enumm)@.variants),
            ..old(enumm)@
        }),
{
    let ghost all = enumm@.variants;
    let mut renamed: Vec<EnumVariant> = Vec::new();
    let mut i: usize = 0;
    while i < enumm.variants.len()
        invariant
            i <= all.len(),
            all == views(enumm.variants@),
            *enumm == *old(enumm),
            renamed@.len() == i,
            forall|j: int| 0 <= j < i ==> #[trigger] renamed@[j]@ == renamed_apart(all)[j],
        decreases all.len() - i,
    {
        let variant = &enumm.variants[i];
        assert(all[i as int] == variant@);
        let mut shared: bool = false;
        let mut k: usize = 0;
        while k < enumm.variants.len()
            invariant
                i < all.len(),
                k <= all.len(),
                all == views(enumm.variants@),
                all[i as int] == variant@,
                shared == (exists|j: int|
                    0 <= j < k && j != i && (#[trigger] all[j]).name == all[i as int].name),
            decreases all.len() - k,
        {
            assert(all[k as int] == enumm.variants@[k as int]@);
            if k != i && enumm.variants[k].name == variant.name {
                shared = true;
            }
            k += 1;
        }
        let name = if shared {
            variant.name.clone().concat("_").concat(decimal_of(variant.value).as_str())
        } else {
            variant.name.clone()
        };
        renamed.push(
            EnumVariant {
                name,
                description: copy_opt(&variant.description),
                value: variant.value,
            },
        );
        i += 1;
    }
    assert(views(renamed@) =~= renamed_apart(all));
    enumm.variants = renamed;
}

} // verus!
