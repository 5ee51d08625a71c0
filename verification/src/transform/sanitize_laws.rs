//! What holds of sanitized names and of the variants of a sanitized enum.
use crate::ir::EnumVariantView;
use crate::text::{decimal, lemma_decimal, lemma_decimal_injective};
use crate::transform::sanitize::{
    has_variant, is_digit, is_dropped, is_keyword, kept_chars, merged, name_is_shared,
    renamed_apart, sanitized, told_apart,
};
use vstd::prelude::*;

verus! {

broadcast use vstd::seq::group_seq_axioms;

/// Whether a name can stand as it is: it holds no character that is dropped,
/// begins with no digit and is no keyword.
pub open spec fn stands_as_is(s: Seq<char>) -> bool {
    &&& forall|i: int| 0 <= i < s.len() ==> !is_dropped(#[trigger] s[i])
    &&& s.len() > 0 ==> !is_digit(s[0])
    &&& !is_keyword(s)
}

/// No keyword begins or ends with an underscore or a digit.
proof fn lemma_keyword_ends(s: Seq<char>)
    requires
        is_keyword(s),
    ensures
        s.len() > 0,
        s[0] != '_',
        s.last() != '_',
        !is_digit(s[0]),
        !is_digit(s.last()),
        forall|i: int| 0 <= i < s.len() ==> !is_dropped(#[trigger] s[i]),
{
    reveal_strlit("abstract");
    reveal_strlit("as");
    reveal_strlit("async");
    reveal_strlit("await");
    reveal_strlit("become");
    reveal_strlit("box");
    reveal_strlit("break");
    reveal_strlit("const");
    reveal_strlit("continue");
    reveal_strlit("crate");
    reveal_strlit("do");
    reveal_strlit("dyn");
    reveal_strlit("else");
    reveal_strlit("enum");
    reveal_strlit("extern");
    reveal_strlit("false");
    reveal_strlit("final");
    reveal_strlit("fn");
    reveal_strlit("for");
    reveal_strlit("if");
    reveal_strlit("impl");
    reveal_strlit("in");
    reveal_strlit("let");
    reveal_strlit("loop");
    reveal_strlit("macro");
    reveal_strlit("match");
    reveal_strlit("mod");
    reveal_strlit("move");
    reveal_strlit("mut");
    reveal_strlit("override");
    reveal_strlit("priv");
    reveal_strlit("pub");
    reveal_strlit("ref");
    reveal_strlit("return");
    reveal_strlit("self");
    reveal_strlit("Self");
    reveal_strlit("static");
    reveal_strlit("struct");
    reveal_strlit("super");
    reveal_strlit("trait");
    reveal_strlit("true");
    reveal_strlit("try");
    reveal_strlit("type");
    reveal_strlit("typeof");
    reveal_strlit("unsafe");
    reveal_strlit("unsized");
    reveal_strlit("use");
    reveal_strlit("virtual");
    reveal_strlit("where");
    reveal_strlit("while");
    reveal_strlit("yield");
}

/// Nothing of what is kept is dropped, and what holds nothing to drop is kept.
proof fn lemma_kept_chars(s: Seq<char>)
    ensures
        forall|i: int| 0 <= i < kept_chars(s).len() ==> !is_dropped(#[trigger] kept_chars(s)[i]),
        (forall|i: int| 0 <= i < s.len() ==> !is_dropped(#[trigger] s[i])) ==> kept_chars(s) == s,
    decreases s.len(),
{
    if s.len() > 0 {
        let init = s.drop_last();
        lemma_kept_chars(init);
        assert forall|i: int| 0 <= i < kept_chars(s).len() implies !is_dropped(
            #[trigger] kept_chars(s)[i],
        ) by {
            if i < kept_chars(init).len() {
                assert(kept_chars(s)[i] == kept_chars(init)[i]);
            }
        }
        if forall|i: int| 0 <= i < s.len() ==> !is_dropped(#[trigger] s[i]) {
            assert forall|i: int| 0 <= i < init.len() implies !is_dropped(#[trigger] init[i]) by {
                assert(!is_dropped(s[i]));
            }
            assert(!is_dropped(s[s.len() - 1]));
            assert(init.push(s.last()) =~= s);
        }
    } else {
        assert(kept_chars(s) =~= s);
    }
}

/// A sanitized name can stand as it is.
pub proof fn lemma_sanitized(s: Seq<char>)
    ensures
        stands_as_is(sanitized(s)),
{
    reveal_strlit("_");
    lemma_kept_chars(s);
    let kept = kept_chars(s);
    let r = sanitized(s);
    if kept.len() > 0 && is_digit(kept[0]) {
        assert(r[0] == '_');
        assert forall|i: int| 0 <= i < r.len() implies !is_dropped(#[trigger] r[i]) by {
            if i > 0 {
                assert(!is_dropped(kept[i - 1]));
            }
        }
        if is_keyword(r) {
            lemma_keyword_ends(r);
        }
    } else if is_keyword(kept) {
        lemma_keyword_ends(kept);
        assert(r.last() == '_');
        assert(r[0] == kept[0]);
        if is_keyword(r) {
            lemma_keyword_ends(r);
        }
    }
}

/// A name that can stand as it is stays as it is.
pub proof fn lemma_stays(s: Seq<char>)
    requires
        stands_as_is(s),
    ensures
        sanitized(s) == s,
{
    lemma_kept_chars(s);
}

/// To sanitize a name twice is to sanitize it once.
pub proof fn lemma_sanitized_twice(s: Seq<char>)
    ensures
        sanitized(sanitized(s)) == sanitized(s),
{
    lemma_sanitized(s);
    lemma_stays(sanitized(s));
}

/// Whether no two variants have the same name and value.
pub open spec fn pairs_differ(variants: Seq<EnumVariantView>) -> bool {
    forall|i: int, j: int|
        0 <= i < j < variants.len() ==> (#[trigger] variants[i]).name != (
        #[trigger] variants[j]).name || variants[i].value != variants[j].value
}

/// Merging leaves one variant of each name and value, and none else.
pub proof fn lemma_merged(variants: Seq<EnumVariantView>)
    ensures
        pairs_differ(merged(variants)),
        forall|name: Seq<char>, value: u64| #[trigger]
            has_variant(merged(variants), name, value) == has_variant(variants, name, value),
    decreases variants.len(),
{
    if variants.len() > 0 {
        let init = variants.drop_last();
        let last = variants.last();
        let before = merged(init);
        let all = merged(variants);
        lemma_merged(init);
        assert forall|i: int, j: int| 0 <= i < j < all.len() implies (#[trigger] all[i]).name != (
        #[trigger] all[j]).name || all[i].value != all[j].value by {
            assert(all[i] == before[i]);
            if j < before.len() {
                assert(all[j] == before[j]);
            } else if before[i].name == last.name && before[i].value == last.value {
                assert(has_variant(before, last.name, last.value));
            }
        }
        assert forall|name: Seq<char>, value: u64| #[trigger]
            has_variant(all, name, value) == has_variant(variants, name, value) by {
            assert(has_variant(before, name, value) == has_variant(init, name, value));
            if has_variant(all, name, value) {
                let i = choose|i: int|
                    0 <= i < all.len() && (#[trigger] all[i]).name == name && all[i].value == value;
                if i < before.len() {
                    assert(before[i] == all[i]);
                    let k = choose|k: int|
                        0 <= k < init.len() && (#[trigger] init[k]).name == name && init[k].value
                            == value;
                    assert(variants[k] == init[k]);
                } else {
                    assert(variants[variants.len() - 1] == last);
                }
            }
            if has_variant(variants, name, value) {
                let i = choose|i: int|
                    0 <= i < variants.len() && (#[trigger] variants[i]).name == name
                        && variants[i].value == value;
                if i < init.len() {
                    assert(init[i] == variants[i]);
                    let k = choose|k: int|
                        0 <= k < before.len() && (#[trigger] before[k]).name == name
                            && before[k].value == value;
                    assert(all[k] == before[k]);
                } else if has_variant(before, last.name, last.value) {
                    let k = choose|k: int|
                        0 <= k < before.len() && (#[trigger] before[k]).name == name
                            && before[k].value == value;
                    assert(all[k] == before[k]);
                } else {
                    assert(all[before.len() as int] == last);
                }
            }
        }
    }
}

/// What merging leaves of a name and value is the first variant that has them.
pub proof fn lemma_merged_first(variants: Seq<EnumVariantView>, k: int) -> (i: int)
    requires
        0 <= k < merged(variants).len(),
    ensures
        0 <= i < variants.len(),
        merged(variants)[k] == variants[i],
        forall|j: int|
            0 <= j < i ==> (#[trigger] variants[j]).name != variants[i].name || variants[j].value
                != variants[i].value,
    decreases variants.len(),
{
    let init = variants.drop_last();
    let before = merged(init);
    if k < before.len() {
        let i = lemma_merged_first(init, k);
        assert forall|j: int| 0 <= j < i implies (#[trigger] variants[j]).name != variants[i].name
            || variants[j].value != variants[i].value by {
            assert(init[j].name != init[i].name || init[j].value != init[i].value);
        }
        i
    } else {
        let i = variants.len() - 1;
        lemma_merged(init);
        assert forall|j: int| 0 <= j < i implies (#[trigger] variants[j]).name != variants[i].name
            || variants[j].value != variants[i].value by {
            if variants[j].name == variants[i].name && variants[j].value == variants[i].value {
                assert(init[j] == variants[j]);
                assert(has_variant(init, variants[i].name, variants[i].value));
                assert(has_variant(before, variants[i].name, variants[i].value));
            }
        }
        i
    }
}

/// Where no two variants have the same name and value, nothing is merged.
pub proof fn lemma_merged_stays(variants: Seq<EnumVariantView>)
    requires
        pairs_differ(variants),
    ensures
        merged(variants) == variants,
    decreases variants.len(),
{
    if variants.len() > 0 {
        let init = variants.drop_last();
        let last = variants.last();
        assert forall|i: int, j: int| 0 <= i < j < init.len() implies (#[trigger] init[i]).name != (
        #[trigger] init[j]).name || init[i].value != init[j].value by {
            assert(variants[i].name != variants[j].name || variants[i].value != variants[j].value);
        }
        lemma_merged_stays(init);
        if has_variant(init, last.name, last.value) {
            let i = choose|i: int|
                0 <= i < init.len() && (#[trigger] init[i]).name == last.name && init[i].value
                    == last.value;
            assert(variants[i].name != variants[variants.len() - 1].name || variants[i].value
                != variants[variants.len() - 1].value);
        }
        assert(init.push(last) =~= variants);
    } else {
        assert(merged(variants) =~= variants);
    }
}

/// A variant that is told apart by its value gives the name and the value back.
proof fn lemma_told_apart(a: EnumVariantView, b: EnumVariantView)
    requires
        told_apart(a).name == told_apart(b).name,
    ensures
        a.name == b.name,
        a.value == b.value,
{
    reveal_strlit("_");
    let (d, e) = (decimal(a.value as nat), decimal(b.value as nat));
    let (s, t) = (told_apart(a).name, told_apart(b).name);
    lemma_decimal(a.value as nat);
    lemma_decimal(b.value as nat);
    let (p, q) = (a.name + "_"@, b.name + "_"@);
    assert(s == p + d && t == q + e);
    assert(p.len() == a.name.len() + 1 && q.len() == b.name.len() + 1);
    assert(s.len() == p.len() + d.len());
    assert(t.len() == q.len() + e.len());
    assert(s == t);
    assert(s[a.name.len() as int] == '_');
    assert(t[b.name.len() as int] == '_');
    if a.name.len() < b.name.len() {
        assert(s[b.name.len() as int] == d[b.name.len() - p.len()]);
    } else if b.name.len() < a.name.len() {
        assert(t[a.name.len() as int] == e[a.name.len() - q.len()]);
    }
    let n = a.name.len() as int;
    assert(s.take(n) =~= a.name);
    assert(t.take(n) =~= b.name);
    assert(s.skip(n + 1) =~= d);
    assert(t.skip(n + 1) =~= e);
    lemma_decimal_injective(a.value as nat, b.value as nat);
}

/// A variant that is told apart has a name that can stand as it is, if it had one
/// before.
pub proof fn lemma_told_apart_stands(v: EnumVariantView)
    requires
        stands_as_is(v.name),
    ensures
        stands_as_is(told_apart(v).name),
{
    reveal_strlit("_");
    let d = decimal(v.value as nat);
    let s = told_apart(v).name;
    let p = v.name + "_"@;
    lemma_decimal(v.value as nat);
    assert(s == p + d);
    assert forall|i: int| 0 <= i < s.len() implies !is_dropped(#[trigger] s[i]) by {
        if i < v.name.len() {
            assert(s[i] == v.name[i]);
        } else if i >= p.len() {
            assert(s[i] == d[i - p.len()]);
        }
    }
    if v.name.len() > 0 {
        assert(s[0] == v.name[0]);
    } else {
        assert(s[0] == '_');
    }
    assert(s.last() == d.last());
    assert(is_digit(s.last()));
    if is_keyword(s) {
        lemma_keyword_ends(s);
    }
}

/// Telling variants apart keeps their number, order, values and descriptions, and
/// every name that only one of them has.
pub proof fn lemma_renamed_apart(variants: Seq<EnumVariantView>, i: int)
    requires
        0 <= i < variants.len(),
    ensures
        renamed_apart(variants).len() == variants.len(),
        renamed_apart(variants)[i].value == variants[i].value,
        renamed_apart(variants)[i].description == variants[i].description,
        !name_is_shared(variants, i) ==> renamed_apart(variants)[i] == variants[i],
{
}

/// Two variants that share a name but not a value have different names after they
/// are told apart.
pub proof fn lemma_shared_told_apart(variants: Seq<EnumVariantView>, i: int, j: int)
    requires
        0 <= i < variants.len(),
        0 <= j < variants.len(),
        i != j,
        variants[i].name == variants[j].name,
        variants[i].value != variants[j].value,
    ensures
        renamed_apart(variants)[i].name != renamed_apart(variants)[j].name,
{
    assert(name_is_shared(variants, i));
    assert(name_is_shared(variants, j));
    if renamed_apart(variants)[i].name == renamed_apart(variants)[j].name {
        lemma_told_apart(variants[i], variants[j]);
    }
}

/// Where no two variants have the same name and value, all names differ after the
/// variants are told apart, but for a new name that another variant already had.
pub proof fn lemma_names_differ(variants: Seq<EnumVariantView>)
    requires
        pairs_differ(variants),
    ensures
        (forall|i: int, j: int|
            0 <= i < j < variants.len() ==> (#[trigger] renamed_apart(variants)[i]).name != (
            #[trigger] renamed_apart(variants)[j]).name) <==> (forall|i: int, j: int|
            0 <= i < variants.len() && 0 <= j < variants.len() && name_is_shared(variants, i)
                && !name_is_shared(variants, j) ==> told_apart(#[trigger] variants[i]).name != (
            #[trigger] variants[j]).name),
{
    let r = renamed_apart(variants);
    if forall|i: int, j: int|
        0 <= i < j < variants.len() ==> (#[trigger] r[i]).name != (#[trigger] r[j]).name {
        assert forall|i: int, j: int|
            0 <= i < variants.len() && 0 <= j < variants.len() && name_is_shared(variants, i)
                && !name_is_shared(variants, j) implies told_apart(#[trigger] variants[i]).name
            != (#[trigger] variants[j]).name by {
            if i < j {
                assert(r[i].name != r[j].name);
            } else {
                assert(r[j].name != r[i].name);
            }
        }
    }
    if forall|i: int, j: int|
        0 <= i < variants.len() && 0 <= j < variants.len() && name_is_shared(variants, i)
            && !name_is_shared(variants, j) ==> told_apart(#[trigger] variants[i]).name != (
        #[trigger] variants[j]).name {
        assert forall|i: int, j: int| 0 <= i < j < variants.len() implies (#[trigger] r[i]).name
            != (#[trigger] r[j]).name by {
            let (a, b) = (variants[i], variants[j]);
            if name_is_shared(variants, i) && name_is_shared(variants, j) {
                if r[i].name == r[j].name {
                    lemma_told_apart(a, b);
                }
            } else if name_is_shared(variants, i) {
                assert(told_apart(a).name != b.name);
            } else if name_is_shared(variants, j) {
                assert(told_apart(b).name != a.name);
            } else if a.name == b.name {
                assert(name_is_shared(variants, i));
            }
        }
    }
}

} // verus!
