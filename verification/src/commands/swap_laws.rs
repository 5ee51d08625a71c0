//! What becomes of the errors of a comparison when its sides are swapped, or when
//! the fields of the right side stand in another order.
use crate::commands::compat::{
    array_errors, at_offset, block_errors, block_errors_to, blocks_comparable, blocks_meet,
    field_errors, fieldset_errors, from_left_fields, from_left_items, from_right_fields,
    from_right_items, in_place, inner_errors_to, inners_meet, item_errors_to, item_meets,
    left_field_errors, left_item_errors_to, lemma_depth_block, right_field_errors,
};
use crate::commands::compat_error::FieldSetErrorView;
use crate::commands::compat_laws::{
    block_is_tidy, blocks_compatible, fieldset_is_tidy, inner_is_tidy, lemma_block_reflexive,
    lemma_fieldset_reflexive,
};
use crate::ir::{
    ArrayView, BlockItemInnerView, BlockItemView, BlockView, FieldSetView, FieldView, IrView,
};
use crate::name_map::lookup;
use crate::seqs::{
    first, gather, is_first, lemma_first_is_element, lemma_gather_append, lemma_gather_empty,
    lemma_gather_len, lemma_gather_nested, lemma_gather_permuted, lemma_gather_same,
    lemma_gather_source, lemma_has_first, lemma_no_first, lemma_total_same, lemma_total_single,
    lemma_total_sum, lemma_total_swapped, lemma_total_zero, one_if, total,
};
use crate::transform::common::CheckLevel;
use vstd::prelude::*;

verus! {

broadcast use vstd::seq::group_seq_axioms;

/// For each thing, whether another has the same place.
type Near<A> = spec_fn(A) -> spec_fn(A) -> bool;

/// Whether the things of a list all have different places.
spec fn places_differ<A>(s: Seq<A>, near: Near<A>) -> bool {
    forall|i: int, j: int|
        #![trigger near(s[i])(s[j])]
        0 <= i < s.len() && 0 <= j < s.len() && i != j ==> !near(s[i])(s[j])
}

/// How many things `a` lacks among `s`: one, if none there has its place.
spec fn lack<A>(s: Seq<A>, near: Near<A>) -> spec_fn(A) -> nat {
    |a: A|
        if first(s, near(a)) is None {
            1
        } else {
            0
        }
}

/// How many errors `a` gives against its partner among `s`, or one if it has none.
spec fn cost<A>(s: Seq<A>, near: Near<A>, c: spec_fn(A, A) -> nat) -> spec_fn(A) -> nat {
    |a: A|
        match first(s, near(a)) {
            Some(b) => c(a, b),
            None => 1,
        }
}

/// How many errors two things give, if they have the same place.
spec fn pair_cost<A>(near: Near<A>, c: spec_fn(A, A) -> nat) -> spec_fn(A, A) -> nat {
    |a: A, b: A|
        if near(a)(b) {
            c(a, b)
        } else {
            0
        }
}

/// Where places differ, the errors against the partner are those against all.
proof fn lemma_cost<A>(a: A, s: Seq<A>, near: Near<A>, c: spec_fn(A, A) -> nat)
    requires
        places_differ(s, near),
        forall|x: A, y: A, z: A| #![trigger near(x)(y), near(x)(z)]
            near(x)(y) && near(x)(z) ==> near(y)(z),
    ensures
        cost(s, near, c)(a) == total(s, |b: A| pair_cost(near, c)(a, b)) + lack(s, near)(a),
{
    let w = |b: A| pair_cost(near, c)(a, b);
    let p = near(a);
    match first(s, p) {
        Some(b) => {
            lemma_first_is_element(s, p);
            let k = choose|k: int| #[trigger] is_first(s, p, k) && s[k] == first(s, p)->0;
            assert forall|i: int| 0 <= i < s.len() && i != k implies w(#[trigger] s[i]) == 0 by {
                if near(a)(s[i]) {
                    assert(near(a)(s[k]));
                    assert(near(s[i])(s[k]));
                }
            }
            lemma_total_single(s, w, k);
        },
        None => {
            assert forall|i: int| 0 <= i < s.len() implies w(#[trigger] s[i]) == 0 by {
                if near(a)(s[i]) {
                    lemma_has_first(s, p, i);
                }
            }
            lemma_total_zero(s, w);
        },
    }
}

/// The errors against the partners are those against all, and one for each thing
/// without a partner.
proof fn lemma_costs<A>(l: Seq<A>, r: Seq<A>, near: Near<A>, c: spec_fn(A, A) -> nat)
    requires
        places_differ(r, near),
        forall|x: A, y: A, z: A| #![trigger near(x)(y), near(x)(z)]
            near(x)(y) && near(x)(z) ==> near(y)(z),
    ensures
        total(l, cost(r, near, c)) == total(
            l,
            |a: A| total(r, |b: A| pair_cost(near, c)(a, b)),
        ) + total(l, lack(r, near)),
{
    let all = |a: A| total(r, |b: A| pair_cost(near, c)(a, b));
    let sum = |a: A| all(a) + lack(r, near)(a);
    assert forall|i: int| 0 <= i < l.len() implies cost(r, near, c)(#[trigger] l[i]) == sum(
        l[i],
    ) by {
        lemma_cost(l[i], r, near, c);
    }
    lemma_total_same(l, cost(r, near, c), sum);
    lemma_total_sum(l, all, lack(r, near));
}

/// Where places differ on both sides, and two things of one place give as many
/// errors one way as the other, so do the lists.
proof fn lemma_swapped_costs<A>(l: Seq<A>, r: Seq<A>, near: Near<A>, c: spec_fn(A, A) -> nat)
    requires
        places_differ(l, near),
        places_differ(r, near),
        forall|x: A, y: A| #[trigger] near(x)(y) ==> near(y)(x),
        forall|x: A, y: A, z: A| #![trigger near(x)(y), near(x)(z)]
            near(x)(y) && near(x)(z) ==> near(y)(z),
        forall|i: int, j: int|
            0 <= i < l.len() && 0 <= j < r.len() && near(#[trigger] l[i])(#[trigger] r[j]) ==> c(
                l[i],
                r[j],
            ) == c(r[j], l[i]),
    ensures
        total(l, cost(r, near, c)) + total(r, lack(l, near)) == total(r, cost(l, near, c)) + total(
            l,
            lack(r, near),
        ),
{
    lemma_costs(l, r, near, c);
    lemma_costs(r, l, near, c);
    let w = pair_cost(near, c);
    let here = |b: A| total(l, |a: A| w(a, b));
    let other = |b: A| total(l, |a: A| w(b, a));
    lemma_total_swapped(l, r, w);
    assert forall|j: int| 0 <= j < r.len() implies here(#[trigger] r[j]) == other(r[j]) by {
        let b = r[j];
        let f = |a: A| w(a, b);
        let g = |a: A| w(b, a);
        assert forall|i: int| 0 <= i < l.len() implies f(#[trigger] l[i]) == g(l[i]) by {
            assert(near(l[i])(r[j]) ==> near(r[j])(l[i]));
            assert(near(r[j])(l[i]) ==> near(l[i])(r[j]));
        }
        lemma_total_same(l, f, g);
    }
    lemma_total_same(r, here, other);
}

/// The fields that take the bits of a field.
spec fn near_field() -> Near<FieldView> {
    |f: FieldView| in_place(f.bit_offset, f.bit_size)
}

/// The items at the offset of an item.
spec fn near_item() -> Near<BlockItemView> {
    |i: BlockItemView| at_offset(i.byte_offset)
}

/// How many errors two fields of one place give, with their names.
spec fn field_cost(level: CheckLevel) -> spec_fn(FieldView, FieldView) -> nat {
    |l: FieldView, r: FieldView|
        (if level.covers(CheckLevel::Names) && l.name != r.name {
            1nat
        } else {
            0nat
        }) + field_errors(l, r, level).len()
}

/// Two arrays give as many errors one way as the other.
pub proof fn lemma_array_swapped(l: ArrayView, r: ArrayView)
    ensures
        array_errors(l, r).len() == array_errors(r, l).len(),
{
}

/// Two fields give as many errors one way as the other.
pub proof fn lemma_field_swapped(l: FieldView, r: FieldView, level: CheckLevel)
    ensures
        field_errors(l, r, level).len() == field_errors(r, l, level).len(),
{
    if let (Some(a), Some(b)) = (l.array, r.array) {
        lemma_array_swapped(a, b);
    }
}

/// How many errors the fields of two fieldsets give.
proof fn lemma_field_errors_counted(l: FieldSetView, r: FieldSetView, level: CheckLevel)
    ensures
        gather(l.fields, from_left_fields(r.fields, level)).len() == total(
            l.fields,
            cost(r.fields, near_field(), field_cost(level)),
        ),
        gather(r.fields, from_right_fields(l.fields)).len() == total(
            r.fields,
            lack(l.fields, near_field()),
        ),
{
    let f = from_left_fields(r.fields, level);
    let g = from_right_fields(l.fields);
    let cf = |x: FieldView| f(x).len();
    let cg = |x: FieldView| g(x).len();
    lemma_gather_len(l.fields, f);
    lemma_gather_len(r.fields, g);
    let w = cost(r.fields, near_field(), field_cost(level));
    assert forall|i: int| 0 <= i < l.fields.len() implies cf(#[trigger] l.fields[i]) == w(
        l.fields[i],
    ) by {
        assert(near_field()(l.fields[i]) == in_place(l.fields[i].bit_offset, l.fields[i].bit_size));
        assert(f(l.fields[i]) == left_field_errors(l.fields[i], r.fields, level));
    }
    lemma_total_same(l.fields, cf, w);
    let v = lack(l.fields, near_field());
    assert forall|i: int| 0 <= i < r.fields.len() implies cg(#[trigger] r.fields[i]) == v(
        r.fields[i],
    ) by {
        assert(near_field()(r.fields[i]) == in_place(r.fields[i].bit_offset, r.fields[i].bit_size));
        assert(g(r.fields[i]) == right_field_errors(r.fields[i], l.fields));
    }
    lemma_total_same(r.fields, cg, v);
}

/// The fields of a tidy fieldset have different places.
proof fn lemma_tidy_places(s: FieldSetView)
    requires
        fieldset_is_tidy(s),
    ensures
        places_differ(s.fields, near_field()),
{
    assert forall|i: int, j: int|
        #![trigger near_field()(s.fields[i])(s.fields[j])]
        0 <= i < s.fields.len() && 0 <= j < s.fields.len() && i != j implies !near_field()(
        s.fields[i],
    )(s.fields[j]) by {
        if i < j {
            assert(s.fields[i].bit_offset != s.fields[j].bit_offset || s.fields[i].bit_size
                != s.fields[j].bit_size);
        } else {
            assert(s.fields[j].bit_offset != s.fields[i].bit_offset || s.fields[j].bit_size
                != s.fields[i].bit_size);
        }
    }
}

/// Fieldsets whose fields all take different bits give as many errors one way as
/// the other.
proof fn lemma_fieldset_count(l: FieldSetView, r: FieldSetView, level: CheckLevel)
    requires
        fieldset_is_tidy(l),
        fieldset_is_tidy(r),
    ensures
        fieldset_errors(l, r, level).len() == fieldset_errors(r, l, level).len(),
{
    lemma_field_errors_counted(l, r, level);
    lemma_field_errors_counted(r, l, level);
    lemma_tidy_places(l);
    lemma_tidy_places(r);
    let c = field_cost(level);
    assert forall|i: int, j: int|
        0 <= i < l.fields.len() && 0 <= j < r.fields.len() && near_field()(#[trigger] l.fields[i])(
            #[trigger] r.fields[j],
        ) implies c(l.fields[i], r.fields[j]) == c(r.fields[j], l.fields[i]) by {
        lemma_field_swapped(l.fields[i], r.fields[j], level);
    }
    lemma_swapped_costs(l.fields, r.fields, near_field(), c);
}

/// The name in an error on a field that the right side lacks.
pub open spec fn right_lacks() -> spec_fn(FieldSetErrorView) -> Seq<Seq<char>> {
    |e: FieldSetErrorView|
        match e {
            FieldSetErrorView::RhsMissingField(name) => seq![name],
            _ => seq![],
        }
}

/// The name in an error on a field that the left side lacks.
pub open spec fn left_lacks() -> spec_fn(FieldSetErrorView) -> Seq<Seq<char>> {
    |e: FieldSetErrorView|
        match e {
            FieldSetErrorView::LhsMissingfield(name) => seq![name],
            _ => seq![],
        }
}

/// The name of a field, if none of the fields takes its bits.
spec fn name_if_missing(fields: Seq<FieldView>) -> spec_fn(FieldView) -> Seq<Seq<char>> {
    |f: FieldView| one_if(first(fields, in_place(f.bit_offset, f.bit_size)) is None, f.name)
}

/// The errors that are not on missing fields name none.
proof fn lemma_no_names(s: Seq<FieldSetErrorView>, g: spec_fn(FieldSetErrorView) -> Seq<Seq<char>>)
    requires
        forall|i: int| 0 <= i < s.len() ==> g(#[trigger] s[i]).len() == 0,
    ensures
        gather(s, g) == Seq::<Seq<char>>::empty(),
{
    lemma_gather_empty(s, g);
}

/// One error names what it names.
proof fn lemma_one_name(e: FieldSetErrorView, g: spec_fn(FieldSetErrorView) -> Seq<Seq<char>>)
    ensures
        gather(seq![e], g) == g(e),
{
    let s = seq![e];
    assert(s.drop_last() =~= Seq::<FieldSetErrorView>::empty());
    assert(gather(s.drop_last(), g) =~= Seq::<Seq<char>>::empty());
    assert(gather(s, g) =~= g(e));
}

/// What a comparison of fieldsets gives besides errors on the left side's fields
/// and on fields that it lacks.
spec fn head_errors(l: FieldSetView, r: FieldSetView, level: CheckLevel) -> Seq<FieldSetErrorView> {
    one_if(l.extends != r.extends, FieldSetErrorView::Extends(l.extends, r.extends)) + one_if(
        l.bit_size != r.bit_size,
        FieldSetErrorView::Bitsize(l.bit_size, r.bit_size),
    ) + one_if(
        level.covers(CheckLevel::Descriptions) && l.description != r.description,
        FieldSetErrorView::Description(l.description, r.description),
    )
}

/// The names in the errors of a comparison are those of the fields that have no
/// partner, in order.
proof fn lemma_missing_names(l: FieldSetView, r: FieldSetView, level: CheckLevel)
    ensures
        gather(fieldset_errors(l, r, level), right_lacks()) == gather(
            l.fields,
            name_if_missing(r.fields),
        ),
        gather(fieldset_errors(l, r, level), left_lacks()) == gather(
            r.fields,
            name_if_missing(l.fields),
        ),
{
    let f = from_left_fields(r.fields, level);
    let g = from_right_fields(l.fields);
    let head = head_errors(l, r, level);
    let lefts = gather(l.fields, f);
    let rights = gather(r.fields, g);
    let (rl, ll) = (right_lacks(), left_lacks());
    assert(fieldset_errors(l, r, level) == head + lefts + rights);
    lemma_gather_append(head + lefts, rights, rl);
    lemma_gather_append(head, lefts, rl);
    lemma_gather_append(head + lefts, rights, ll);
    lemma_gather_append(head, lefts, ll);
    lemma_no_names(head, rl);
    lemma_no_names(head, ll);
    assert forall|k: int| 0 <= k < rights.len() implies rl(#[trigger] rights[k]).len() == 0 by {
        let i = lemma_gather_source(r.fields, g, k);
        assert(g(r.fields[i]) == right_field_errors(r.fields[i], l.fields));
    }
    lemma_no_names(rights, rl);
    assert forall|k: int| 0 <= k < lefts.len() implies ll(#[trigger] lefts[k]).len() == 0 by {
        let i = lemma_gather_source(l.fields, f, k);
        assert(f(l.fields[i]) == left_field_errors(l.fields[i], r.fields, level));
    }
    lemma_no_names(lefts, ll);
    lemma_gather_nested(l.fields, f, rl);
    let a = |x: FieldView| gather(f(x), rl);
    assert forall|i: int| 0 <= i < l.fields.len() implies a(#[trigger] l.fields[i])
        == name_if_missing(r.fields)(l.fields[i]) by {
        let x = l.fields[i];
        let errors = left_field_errors(x, r.fields, level);
        assert(f(x) == errors);
        if first(r.fields, in_place(x.bit_offset, x.bit_size)) is None {
            assert(errors == seq![FieldSetErrorView::RhsMissingField(x.name)]);
            lemma_one_name(FieldSetErrorView::RhsMissingField(x.name), rl);
        } else {
            lemma_no_names(errors, rl);
        }
    }
    lemma_gather_same(l.fields, a, name_if_missing(r.fields));
    lemma_gather_nested(r.fields, g, ll);
    let b = |x: FieldView| gather(g(x), ll);
    assert forall|i: int| 0 <= i < r.fields.len() implies b(#[trigger] r.fields[i])
        == name_if_missing(l.fields)(r.fields[i]) by {
        let x = r.fields[i];
        let errors = right_field_errors(x, l.fields);
        assert(g(x) == errors);
        if first(l.fields, in_place(x.bit_offset, x.bit_size)) is None {
            assert(errors == seq![FieldSetErrorView::LhsMissingfield(x.name)]);
            lemma_one_name(FieldSetErrorView::LhsMissingfield(x.name), ll);
        } else {
            lemma_no_names(errors, ll);
        }
    }
    lemma_gather_same(r.fields, b, name_if_missing(l.fields));
    assert(gather(fieldset_errors(l, r, level), rl) =~= gather(
        l.fields,
        name_if_missing(r.fields),
    ));
    assert(gather(fieldset_errors(l, r, level), ll) =~= gather(
        r.fields,
        name_if_missing(l.fields),
    ));
}

/// The names that are missing on the right one way are missing on the left the
/// other way, in the same order.
pub proof fn lemma_missing_swapped(l: FieldSetView, r: FieldSetView, level: CheckLevel)
    ensures
        gather(fieldset_errors(l, r, level), right_lacks()) == gather(
            fieldset_errors(r, l, level),
            left_lacks(),
        ),
        gather(fieldset_errors(l, r, level), left_lacks()) == gather(
            fieldset_errors(r, l, level),
            right_lacks(),
        ),
{
    lemma_missing_names(l, r, level);
    lemma_missing_names(r, l, level);
}

/// Fieldsets whose fields all take different bits give as many errors one way as
/// the other; the names missing on the right one way are those missing on the left
/// the other way, in the same order; and each gives none against itself.
pub proof fn lemma_fieldset_swapped(l: FieldSetView, r: FieldSetView, level: CheckLevel)
    requires
        fieldset_is_tidy(l),
        fieldset_is_tidy(r),
    ensures
        fieldset_errors(l, r, level).len() == fieldset_errors(r, l, level).len(),
        gather(fieldset_errors(l, r, level), right_lacks()) == gather(
            fieldset_errors(r, l, level),
            left_lacks(),
        ),
        gather(fieldset_errors(l, r, level), left_lacks()) == gather(
            fieldset_errors(r, l, level),
            right_lacks(),
        ),
        fieldset_errors(l, l, level).len() == 0,
        fieldset_errors(r, r, level).len() == 0,
{
    lemma_fieldset_count(l, r, level);
    lemma_missing_swapped(l, r, level);
    lemma_fieldset_reflexive(l, level);
    lemma_fieldset_reflexive(r, level);
}

/// Among fields that all take different bits, the first that takes some bits does
/// not go by their order.
proof fn lemma_first_permuted(s: FieldSetView, t: Seq<FieldView>, f: FieldView)
    requires
        fieldset_is_tidy(s),
        s.fields.to_multiset() == t.to_multiset(),
    ensures
        first(t, in_place(f.bit_offset, f.bit_size)) == first(
            s.fields,
            in_place(f.bit_offset, f.bit_size),
        ),
{
    broadcast use vstd::multiset::group_multiset_axioms;

    let p = in_place(f.bit_offset, f.bit_size);
    s.fields.to_multiset_ensures();
    t.to_multiset_ensures();
    match first(t, p) {
        Some(x) => {
            lemma_first_is_element(t, p);
            let k = choose|k: int| #[trigger] is_first(t, p, k) && t[k] == first(t, p)->0;
            assert(t.contains(x));
            assert(s.fields.to_multiset().count(x) > 0);
            assert(s.fields.contains(x));
            let i = choose|i: int| 0 <= i < s.fields.len() && s.fields[i] == x;
            lemma_has_first(s.fields, p, i);
            lemma_first_is_element(s.fields, p);
            let j = choose|j: int|
                #[trigger] is_first(s.fields, p, j) && s.fields[j] == first(s.fields, p)->0;
            if i < j {
                assert(!p(s.fields[i]));
            } else if j < i {
                assert(s.fields[j].bit_offset != s.fields[i].bit_offset || s.fields[j].bit_size
                    != s.fields[i].bit_size);
            }
        },
        None => {
            assert forall|i: int| 0 <= i < s.fields.len() implies !p(#[trigger] s.fields[i]) by {
                if p(s.fields[i]) {
                    assert(s.fields.contains(s.fields[i]));
                    assert(t.to_multiset().count(s.fields[i]) > 0);
                    assert(t.contains(s.fields[i]));
                    let k = choose|k: int| 0 <= k < t.len() && t[k] == s.fields[i];
                    lemma_has_first(t, p, k);
                }
            }
            lemma_no_first(s.fields, p);
        },
    }
}

/// The order of the right side's fields, if they all take different bits, does not
/// matter, but for the order of the errors on fields that the left side lacks:
/// those stand last, and all before them is the same.
pub proof fn lemma_fieldset_permuted(
    l: FieldSetView,
    r: FieldSetView,
    fields: Seq<FieldView>,
    level: CheckLevel,
) -> (k: int)
    requires
        fieldset_is_tidy(r),
        r.fields.to_multiset() == fields.to_multiset(),
    ensures
        ({
            let one = fieldset_errors(l, r, level);
            let other = fieldset_errors(l, FieldSetView { fields, ..r }, level);
            &&& 0 <= k <= one.len()
            &&& one.len() == other.len()
            &&& one.take(k) == other.take(k)
            &&& one.skip(k).to_multiset() == other.skip(k).to_multiset()
            &&& forall|i: int| 0 <= i < k ==> !(#[trigger] one[i] is LhsMissingfield)
            &&& forall|i: int| k <= i < one.len() ==> #[trigger] one[i] is LhsMissingfield
            &&& forall|i: int| k <= i < other.len() ==> #[trigger] other[i] is LhsMissingfield
        }),
{
    let s = FieldSetView { fields, ..r };
    let one = fieldset_errors(l, r, level);
    let other = fieldset_errors(l, s, level);
    let (f, f2) = (from_left_fields(r.fields, level), from_left_fields(fields, level));
    let g = from_right_fields(l.fields);
    let head = head_errors(l, r, level);
    let lefts = gather(l.fields, f);
    let (rights, rights2) = (gather(r.fields, g), gather(fields, g));
    assert forall|i: int| 0 <= i < l.fields.len() implies f(#[trigger] l.fields[i]) == f2(
        l.fields[i],
    ) by {
        lemma_first_permuted(r, fields, l.fields[i]);
    }
    lemma_gather_same(l.fields, f, f2);
    lemma_gather_permuted(r.fields, fields, g);
    rights.to_multiset_ensures();
    rights2.to_multiset_ensures();
    let before = head + lefts;
    assert(one == before + rights);
    assert(other == before + rights2);
    let k = before.len() as int;
    assert(one.take(k) =~= before && other.take(k) =~= before);
    assert(one.skip(k) =~= rights && other.skip(k) =~= rights2);
    assert forall|i: int| 0 <= i < k implies !(#[trigger] one[i] is LhsMissingfield) by {
        assert(one[i] == before[i]);
        if i >= head.len() {
            let at = i - head.len();
            assert(before[i] == lefts[at]);
            let j = lemma_gather_source(l.fields, f, at);
            assert(f(l.fields[j]) == left_field_errors(l.fields[j], r.fields, level));
        }
    }
    assert forall|i: int| k <= i < one.len() implies #[trigger] one[i] is LhsMissingfield by {
        assert(one[i] == rights[i - k]);
        let j = lemma_gather_source(r.fields, g, i - k);
        assert(g(r.fields[j]) == right_field_errors(r.fields[j], l.fields));
    }
    assert forall|i: int| k <= i < other.len() implies #[trigger] other[i] is LhsMissingfield by {
        assert(other[i] == rights2[i - k]);
        let j = lemma_gather_source(fields, g, i - k);
        assert(g(fields[j]) == right_field_errors(fields[j], l.fields));
    }
    k
}

/// How many errors two items of one offset give, with their names.
spec fn item_cost(ir: IrView, level: CheckLevel, depth: nat) -> spec_fn(
    BlockItemView,
    BlockItemView,
) -> nat {
    |l: BlockItemView, r: BlockItemView|
        (if level.covers(CheckLevel::Names) && l.name != r.name {
            1nat
        } else {
            0nat
        }) + item_errors_to(ir, l, r, level, depth).len()
}

/// How many errors the items of two blocks give.
proof fn lemma_item_errors_counted(
    ir: IrView,
    l: BlockView,
    r: BlockView,
    level: CheckLevel,
    depth: nat,
)
    ensures
        gather(l.items, from_left_items(ir, r.items, level, depth)).len() == total(
            l.items,
            cost(r.items, near_item(), item_cost(ir, level, depth)),
        ),
        gather(r.items, from_right_items(l.items)).len() == total(
            r.items,
            lack(l.items, near_item()),
        ),
{
    let f = from_left_items(ir, r.items, level, depth);
    let g = from_right_items(l.items);
    let cf = |x: BlockItemView| f(x).len();
    let cg = |x: BlockItemView| g(x).len();
    lemma_gather_len(l.items, f);
    lemma_gather_len(r.items, g);
    let w = cost(r.items, near_item(), item_cost(ir, level, depth));
    assert forall|i: int| 0 <= i < l.items.len() implies cf(#[trigger] l.items[i]) == w(
        l.items[i],
    ) by {
        assert(near_item()(l.items[i]) == at_offset(l.items[i].byte_offset));
        assert(f(l.items[i]) == left_item_errors_to(ir, l.items[i], r.items, level, depth));
    }
    lemma_total_same(l.items, cf, w);
    let v = lack(l.items, near_item());
    assert forall|i: int| 0 <= i < r.items.len() implies cg(#[trigger] r.items[i]) == v(
        r.items[i],
    ) by {
        assert(near_item()(r.items[i]) == at_offset(r.items[i].byte_offset));
    }
    lemma_total_same(r.items, cg, v);
}

/// The inner parts of tidy items can be compared, and give as many errors one way
/// as the other.
proof fn lemma_inner_count(
    ir: IrView,
    l: BlockItemInnerView,
    r: BlockItemInnerView,
    level: CheckLevel,
    depth: nat,
)
    requires
        inner_is_tidy(ir, l, depth),
        inner_is_tidy(ir, r, depth),
    ensures
        inners_meet(ir, l, r, depth),
        inner_errors_to(ir, l, r, level, depth).len() == inner_errors_to(
            ir,
            r,
            l,
            level,
            depth,
        ).len(),
    decreases depth, 0nat,
{
    match (l, r) {
        (BlockItemInnerView::Block { block: a }, BlockItemInnerView::Block { block: b }) => {
            lemma_block_count(
                ir,
                lookup(ir.blocks, a)->0,
                lookup(ir.blocks, b)->0,
                level,
                (depth - 1) as nat,
            );
        },
        (
            BlockItemInnerView::Register { fieldset: f1, .. },
            BlockItemInnerView::Register { fieldset: f2, .. },
        ) => {
            if let (Some(a), Some(b)) = (f1, f2) {
                lemma_fieldset_count(
                    lookup(ir.fieldsets, a)->0,
                    lookup(ir.fieldsets, b)->0,
                    level,
                );
            }
        },
        _ => {},
    }
}

/// Tidy blocks can be compared, and give as many errors one way as the other.
proof fn lemma_block_count(
    ir: IrView,
    l: BlockView,
    r: BlockView,
    level: CheckLevel,
    depth: nat,
)
    requires
        block_is_tidy(ir, l, depth),
        block_is_tidy(ir, r, depth),
    ensures
        blocks_meet(ir, l, r, depth),
        block_errors_to(ir, l, r, level, depth).len() == block_errors_to(
            ir,
            r,
            l,
            level,
            depth,
        ).len(),
    decreases depth, 1nat,
{
    let c = item_cost(ir, level, depth);
    assert forall|i: int, j: int| 0 <= i < l.items.len() && 0 <= j < r.items.len() implies c(
        #[trigger] l.items[i],
        #[trigger] r.items[j],
    ) == c(r.items[j], l.items[i]) && inners_meet(
        ir,
        l.items[i].inner,
        r.items[j].inner,
        depth,
    ) by {
        let (a, b) = (l.items[i], r.items[j]);
        assert(inner_is_tidy(ir, a.inner, depth) && inner_is_tidy(ir, b.inner, depth));
        lemma_inner_count(ir, a.inner, b.inner, level, depth);
        if let (Some(x), Some(y)) = (a.array, b.array) {
            lemma_array_swapped(x, y);
        }
    }
    assert forall|i: int| 0 <= i < l.items.len() implies item_meets(
        ir,
        #[trigger] l.items[i],
        r.items,
        depth,
    ) by {
        let p = at_offset(l.items[i].byte_offset);
        if first(r.items, p) is Some {
            lemma_first_is_element(r.items, p);
            let j = choose|j: int|
                #[trigger] is_first(r.items, p, j) && r.items[j] == first(r.items, p)->0;
            assert(inners_meet(ir, l.items[i].inner, r.items[j].inner, depth));
        }
    }
    lemma_item_errors_counted(ir, l, r, level, depth);
    lemma_item_errors_counted(ir, r, l, level, depth);
    lemma_tidy_offsets(ir, l, depth);
    lemma_tidy_offsets(ir, r, depth);
    lemma_swapped_costs(l.items, r.items, near_item(), c);
}

/// The items of a tidy block have different places.
proof fn lemma_tidy_offsets(ir: IrView, b: BlockView, depth: nat)
    requires
        block_is_tidy(ir, b, depth),
    ensures
        places_differ(b.items, near_item()),
{
    assert forall|i: int, j: int|
        #![trigger near_item()(b.items[i])(b.items[j])]
        0 <= i < b.items.len() && 0 <= j < b.items.len() && i != j implies !near_item()(
        b.items[i],
    )(b.items[j]) by {
        if i < j {
            assert(b.items[i].byte_offset != b.items[j].byte_offset);
        } else {
            assert(b.items[j].byte_offset != b.items[i].byte_offset);
        }
    }
}

/// What is tidy stays so where nested blocks may go further down.
proof fn lemma_inner_tidy_deeper(ir: IrView, inner: BlockItemInnerView, d: nat, e: nat)
    requires
        inner_is_tidy(ir, inner, d),
        d <= e,
    ensures
        inner_is_tidy(ir, inner, e),
    decreases d, 0nat,
{
    if let BlockItemInnerView::Block { block } = inner {
        lemma_tidy_deeper(ir, lookup(ir.blocks, block)->0, (d - 1) as nat, (e - 1) as nat);
    }
}

/// As `lemma_inner_tidy_deeper`, for blocks.
proof fn lemma_tidy_deeper(ir: IrView, b: BlockView, d: nat, e: nat)
    requires
        block_is_tidy(ir, b, d),
        d <= e,
    ensures
        block_is_tidy(ir, b, e),
    decreases d, 1nat,
{
    assert forall|i: int| 0 <= i < b.items.len() implies inner_is_tidy(
        ir,
        (#[trigger] b.items[i]).inner,
        e,
    ) by {
        lemma_inner_tidy_deeper(ir, b.items[i].inner, d, e);
    }
}

/// Blocks whose items all stand at different offsets, whose registers' fields all
/// take different bits, in which every reference leads somewhere, and in which the
/// same holds of the blocks nested in them, can be compared, give as many errors
/// one way as the other, and are compatible with themselves.
pub proof fn lemma_block_swapped(
    ir: IrView,
    l: BlockView,
    r: BlockView,
    level: CheckLevel,
    left_depth: nat,
    right_depth: nat,
)
    requires
        block_is_tidy(ir, l, left_depth),
        block_is_tidy(ir, r, right_depth),
    ensures
        blocks_comparable(ir, l, r),
        blocks_comparable(ir, r, l),
        block_errors(ir, l, r, level).len() == block_errors(ir, r, l, level).len(),
        blocks_compatible(ir, l, l, level),
        blocks_compatible(ir, r, r, level),
{
    let depth = left_depth + right_depth;
    lemma_tidy_deeper(ir, l, left_depth, depth);
    lemma_tidy_deeper(ir, r, right_depth, depth);
    lemma_block_count(ir, l, r, level, depth);
    lemma_block_count(ir, r, l, level, depth);
    let there = choose|d: nat| #[trigger] blocks_meet(ir, l, r, d);
    let back = choose|d: nat| #[trigger] blocks_meet(ir, r, l, d);
    lemma_depth_block(ir, l, r, level, depth, there);
    lemma_depth_block(ir, r, l, level, depth, back);
    lemma_block_reflexive(ir, l, level, left_depth);
    lemma_block_reflexive(ir, r, level, right_depth);
}

} // verus!
