//! Which errors a comparison gives, and at which place: told from what the two
//! sides hold.
use crate::commands::compat::{
    array_errors, at_offset, block_errors, block_head_errors, blocks_comparable, blocks_meet,
    field_errors, fieldset_errors, from_left_fields, from_left_items, from_right_fields,
    from_right_items, in_place, inner_errors_to, inners_meet, item_array_errors, item_errors,
    item_errors_to, item_meets, items_comparable, left_field_errors, left_item_errors_to,
    lemma_depth_block, lemma_depth_inner, register_fieldset_errors, right_field_errors,
    right_item_errors,
};
use crate::commands::compat_error::{
    ArrayErrorView, BlockErrorView, BlockItemErrorView, FieldErrorView, FieldSetErrorView,
};
use crate::ir::{
    ArrayView, BlockItemInnerView, BlockItemView, BlockView, FieldSetView, FieldView, IrView,
};
use crate::name_map::lookup;
use crate::seqs::{
    first, gather, is_first, lemma_first, lemma_first_is_element, lemma_gather_at, lemma_gather_len,
    lemma_gather_slice, lemma_total_same, one_if, total,
};
use crate::transform::common::CheckLevel;
use vstd::prelude::*;

verus! {

broadcast use vstd::seq::group_seq_axioms;

/// One if the condition holds, else none.
pub open spec fn bit(c: bool) -> nat {
    if c {
        1
    } else {
        0
    }
}

/// Whether a level looks at names.
pub open spec fn looks_at_names(level: CheckLevel) -> bool {
    level is Names || level is Descriptions
}

/// Whether a level looks at descriptions.
pub open spec fn looks_at_descriptions(level: CheckLevel) -> bool {
    level is Descriptions
}

/// How many elements an array has.
pub open spec fn count_of(a: ArrayView) -> nat {
    match a {
        ArrayView::Regular(r) => r.len as nat,
        ArrayView::Cursed(offsets) => offsets.len(),
    }
}

/// Arrays differ first in their number of elements, then in their stride or kind.
pub proof fn lemma_array_differences(l: ArrayView, r: ArrayView)
    ensures
        ({
            let errors = array_errors(l, r);
            let n = bit(count_of(l) != count_of(r)) as int;
            &&& n == 1 ==> errors[0] == ArrayErrorView::Len(count_of(l), count_of(r))
            &&& match (l, r) {
                (ArrayView::Regular(a), ArrayView::Regular(b)) => {
                    &&& errors.len() == n + bit(a.stride != b.stride)
                    &&& a.stride != b.stride ==> errors[n] == ArrayErrorView::Stride(
                        a.stride,
                        b.stride,
                    )
                },
                (ArrayView::Cursed(_), ArrayView::Cursed(_)) => errors.len() == n,
                _ => errors.len() == n + 1 && errors[n] == ArrayErrorView::Xor(l, r),
            }
        }),
{
}

/// How many errors the arrays of two things give.
pub open spec fn array_count(l: Option<ArrayView>, r: Option<ArrayView>) -> nat {
    match (l, r) {
        (Some(a), Some(b)) => array_errors(a, b).len(),
        (None, None) => 0,
        _ => 1,
    }
}

/// Fields differ first in their arrays, then in their descriptions, then in their
/// enums.
pub proof fn lemma_field_differences(l: FieldView, r: FieldView, level: CheckLevel)
    ensures
        ({
            let errors = field_errors(l, r, level);
            let n = array_count(l.array, r.array) as int;
            let described = looks_at_descriptions(level) && l.description != r.description;
            let d = bit(described) as int;
            &&& errors.len() == n + d + bit(l.enumm != r.enumm)
            &&& match (l.array, r.array) {
                (Some(a), Some(b)) => forall|k: int|
                    0 <= k < n ==> #[trigger] errors[k] == FieldErrorView::Array(
                        array_errors(a, b)[k],
                    ),
                (Some(_), None) => errors[0] == FieldErrorView::ArrayXor(true, false),
                (None, Some(_)) => errors[0] == FieldErrorView::ArrayXor(false, true),
                (None, None) => true,
            }
            &&& described ==> errors[n] == FieldErrorView::Description(
                l.description,
                r.description,
            )
            &&& l.enumm != r.enumm ==> errors[n + d] == FieldErrorView::Enum(l.enumm, r.enumm)
        }),
{
}

/// Whether field `j` is the first of the fields that takes the bits of `f`.
pub open spec fn is_partner(f: FieldView, fields: Seq<FieldView>, j: int) -> bool {
    &&& 0 <= j < fields.len()
    &&& fields[j].bit_offset == f.bit_offset
    &&& fields[j].bit_size == f.bit_size
    &&& forall|k: int|
        0 <= k < j ==> (#[trigger] fields[k]).bit_offset != f.bit_offset || fields[k].bit_size
            != f.bit_size
}

/// Whether one of the fields takes the bits of `f`.
pub open spec fn has_partner(f: FieldView, fields: Seq<FieldView>) -> bool {
    exists|j: int| #[trigger] is_partner(f, fields, j)
}

/// How many errors a field of the left side gives.
pub open spec fn field_count(fields: Seq<FieldView>, level: CheckLevel) -> spec_fn(
    FieldView,
) -> nat {
    |f: FieldView|
        if has_partner(f, fields) {
            let p = fields[choose|j: int| #[trigger] is_partner(f, fields, j)];
            bit(looks_at_names(level) && f.name != p.name) + field_errors(f, p, level).len()
        } else {
            1nat
        }
}

/// One for each field that has no partner.
pub open spec fn field_lack(fields: Seq<FieldView>) -> spec_fn(FieldView) -> nat {
    |f: FieldView| bit(!has_partner(f, fields))
}

/// The partner is the first that takes the bits.
proof fn lemma_partner_found(f: FieldView, fields: Seq<FieldView>)
    ensures
        match first(fields, in_place(f.bit_offset, f.bit_size)) {
            Some(p) => has_partner(f, fields) && fields[choose|j: int| #[trigger]
                is_partner(f, fields, j)] == p,
            None => !has_partner(f, fields),
        },
        forall|j: int| #[trigger]
            is_partner(f, fields, j) ==> first(fields, in_place(f.bit_offset, f.bit_size)) == Some(
                fields[j],
            ),
{
    let p = in_place(f.bit_offset, f.bit_size);
    assert forall|j: int| #[trigger] is_partner(f, fields, j) implies first(fields, p) == Some(
        fields[j],
    ) by {
        assert(is_first(fields, p, j)) by {
            assert forall|k: int| 0 <= k < j implies !p(#[trigger] fields[k]) by {
                assert(fields[k].bit_offset != f.bit_offset || fields[k].bit_size != f.bit_size);
            }
        }
        lemma_first(fields, p, j);
    }
    if first(fields, p) is Some {
        lemma_first_is_element(fields, p);
        let j = choose|j: int| #[trigger] is_first(fields, p, j) && fields[j] == first(
            fields,
            p,
        )->0;
        assert forall|k: int| 0 <= k < j implies (#[trigger] fields[k]).bit_offset != f.bit_offset
            || fields[k].bit_size != f.bit_size by {
            assert(!p(fields[k]));
        }
        assert(is_partner(f, fields, j));
    }
}

/// Whether the errors from `at` on are those of a field of the left side: that it
/// has no partner, or the mismatch of the names and then each error of the fields.
#[verifier::opaque]
pub open spec fn field_errors_at(
    errors: Seq<FieldSetErrorView>,
    at: int,
    f: FieldView,
    fields: Seq<FieldView>,
    level: CheckLevel,
) -> bool {
    &&& !has_partner(f, fields) ==> 0 <= at < errors.len() && errors[at]
        == FieldSetErrorView::RhsMissingField(f.name)
    &&& forall|j: int| #[trigger]
        is_partner(f, fields, j) ==> {
            let p = fields[j];
            let renamed = looks_at_names(level) && f.name != p.name;
            &&& renamed ==> 0 <= at < errors.len() && errors[at]
                == (FieldSetErrorView::NameMismatch {
                lhs: f.name,
                rhs: p.name,
                bit_size: f.bit_size,
                bit_offset: f.bit_offset,
            })
            &&& forall|k: int|
                0 <= k < field_errors(f, p, level).len() ==> {
                    let e = #[trigger] field_errors(f, p, level)[k];
                    let i = at + bit(renamed) + k;
                    0 <= i < errors.len() && errors[i] == (FieldSetErrorView::Field {
                        lhs_name: f.name,
                        bit_size: f.bit_size,
                        bit_offset: f.bit_offset,
                        error: e,
                    })
                }
        }
}

/// The errors of a field of the left side are those.
proof fn lemma_own_field_errors(f: FieldView, fields: Seq<FieldView>, level: CheckLevel)
    ensures
        field_errors_at(left_field_errors(f, fields, level), 0, f, fields, level),
        left_field_errors(f, fields, level).len() == field_count(fields, level)(f),
{
    reveal(field_errors_at);
    lemma_partner_found(f, fields);
    let own = left_field_errors(f, fields, level);
    assert forall|j: int| #[trigger] is_partner(f, fields, j) implies {
        let p = fields[j];
        let renamed = looks_at_names(level) && f.name != p.name;
        &&& renamed ==> 0 < own.len() && own[0] == (FieldSetErrorView::NameMismatch {
            lhs: f.name,
            rhs: p.name,
            bit_size: f.bit_size,
            bit_offset: f.bit_offset,
        })
        &&& forall|k: int|
            0 <= k < field_errors(f, p, level).len() ==> {
                let e = #[trigger] field_errors(f, p, level)[k];
                let i = bit(renamed) + k;
                0 <= i < own.len() && own[i] == (FieldSetErrorView::Field {
                    lhs_name: f.name,
                    bit_size: f.bit_size,
                    bit_offset: f.bit_offset,
                    error: e,
                })
            }
    } by {
        assert(first(fields, in_place(f.bit_offset, f.bit_size)) == Some(fields[j]));
    }
}

/// Errors that stand behind others are the same errors.
proof fn lemma_field_errors_moved(
    own: Seq<FieldSetErrorView>,
    from: int,
    errors: Seq<FieldSetErrorView>,
    by: int,
    f: FieldView,
    fields: Seq<FieldView>,
    level: CheckLevel,
)
    requires
        field_errors_at(own, from, f, fields, level),
        0 <= by,
        by + own.len() <= errors.len(),
        errors.subrange(by, by + own.len()) == own,
    ensures
        field_errors_at(errors, by + from, f, fields, level),
{
    reveal(field_errors_at);
    let at = by + from;
    assert forall|k: int| 0 <= k < own.len() implies errors[by + k] == #[trigger] own[k] by {
        assert(errors.subrange(by, by + own.len())[k] == errors[by + k]);
    }
    if !has_partner(f, fields) {
        assert(errors[by + from] == own[from]);
    }
    assert forall|j: int| #[trigger] is_partner(f, fields, j) implies {
        let p = fields[j];
        let renamed = looks_at_names(level) && f.name != p.name;
        &&& renamed ==> 0 <= at < errors.len() && errors[at] == (FieldSetErrorView::NameMismatch {
            lhs: f.name,
            rhs: p.name,
            bit_size: f.bit_size,
            bit_offset: f.bit_offset,
        })
        &&& forall|k: int|
            0 <= k < field_errors(f, p, level).len() ==> {
                let e = #[trigger] field_errors(f, p, level)[k];
                let i = at + bit(renamed) + k;
                0 <= i < errors.len() && errors[i] == (FieldSetErrorView::Field {
                    lhs_name: f.name,
                    bit_size: f.bit_size,
                    bit_offset: f.bit_offset,
                    error: e,
                })
            }
    } by {
        let p = fields[j];
        let renamed = looks_at_names(level) && f.name != p.name;
        if renamed {
            assert(errors[by + from] == own[from]);
        }
        assert forall|k: int| 0 <= k < field_errors(f, p, level).len() implies {
            let e = #[trigger] field_errors(f, p, level)[k];
            let i = at + bit(renamed) + k;
            0 <= i < errors.len() && errors[i] == (FieldSetErrorView::Field {
                lhs_name: f.name,
                bit_size: f.bit_size,
                bit_offset: f.bit_offset,
                error: e,
            })
        } by {
            let m = from + bit(renamed) + k;
            assert(errors[by + m] == own[m]);
        }
    }
}

/// Fieldsets differ first in what they extend, then in their sizes, then in their
/// descriptions; then come the errors of each field of the left side, in order, and
/// then those on the fields of the right side whose bits no field of the left side
/// takes, in order.
#[verifier::spinoff_prover]
#[verifier::rlimit(40)]
pub proof fn lemma_fieldset_differences(l: FieldSetView, r: FieldSetView, level: CheckLevel)
    ensures
        ({
            let errors = fieldset_errors(l, r, level);
            let described = looks_at_descriptions(level) && l.description != r.description;
            let x = bit(l.extends != r.extends) as int;
            let s = bit(l.bit_size != r.bit_size) as int;
            let start = x + s + bit(described);
            let w = field_count(r.fields, level);
            let v = field_lack(l.fields);
            &&& errors.len() == start + total(l.fields, w) + total(r.fields, v)
            &&& l.extends != r.extends ==> errors[0] == FieldSetErrorView::Extends(
                l.extends,
                r.extends,
            )
            &&& l.bit_size != r.bit_size ==> errors[x] == FieldSetErrorView::Bitsize(
                l.bit_size,
                r.bit_size,
            )
            &&& described ==> errors[x + s] == FieldSetErrorView::Description(
                l.description,
                r.description,
            )
            &&& forall|i: int|
                0 <= i < l.fields.len() ==> field_errors_at(
                    errors,
                    start + total(l.fields.take(i), w),
                    #[trigger] l.fields[i],
                    r.fields,
                    level,
                )
            &&& forall|i: int|
                0 <= i < r.fields.len() && !has_partner(#[trigger] r.fields[i], l.fields) ==> {
                    let at = start + total(l.fields, w) + total(r.fields.take(i), v);
                    0 <= at < errors.len() && errors[at] == FieldSetErrorView::LhsMissingfield(
                        r.fields[i].name,
                    )
                }
        }),
{
    let errors = fieldset_errors(l, r, level);
    let w = field_count(r.fields, level);
    let v = field_lack(l.fields);
    let lefts = gather(l.fields, from_left_fields(r.fields, level));
    let rights = gather(r.fields, from_right_fields(l.fields));
    let described = looks_at_descriptions(level) && l.description != r.description;
    let head = one_if(
        l.extends != r.extends,
        FieldSetErrorView::Extends(l.extends, r.extends),
    ) + one_if(
        l.bit_size != r.bit_size,
        FieldSetErrorView::Bitsize(l.bit_size, r.bit_size),
    ) + one_if(described, FieldSetErrorView::Description(l.description, r.description));
    assert(errors == head + lefts + rights);
    lemma_left_fields(l.fields, r.fields, level);
    lemma_right_fields(l.fields, r.fields);
    let start = head.len() as int;
    assert(errors.subrange(start, start + lefts.len()) =~= lefts);
    assert forall|k: int| 0 <= k < rights.len() implies 0 <= start + lefts.len() + k < errors.len()
        && errors[start + lefts.len() + k] == #[trigger] rights[k] by {
    }
    assert forall|i: int| 0 <= i < l.fields.len() implies field_errors_at(
        errors,
        start + total(l.fields.take(i), w),
        #[trigger] l.fields[i],
        r.fields,
        level,
    ) by {
        lemma_field_errors_moved(
            lefts,
            total(l.fields.take(i), w) as int,
            errors,
            start,
            l.fields[i],
            r.fields,
            level,
        );
    }
    assert forall|i: int|
        0 <= i < r.fields.len() && !has_partner(#[trigger] r.fields[i], l.fields) implies {
        let at = start + total(l.fields, w) + total(r.fields.take(i), v);
        0 <= at < errors.len() && errors[at] == FieldSetErrorView::LhsMissingfield(
            r.fields[i].name,
        )
    } by {
        let k = total(r.fields.take(i), v) as int;
        assert(errors[start + lefts.len() + k] == rights[k]);
    }
}

/// The errors of the fields of the left side, one behind the other.
proof fn lemma_left_fields(l: Seq<FieldView>, r: Seq<FieldView>, level: CheckLevel)
    ensures
        ({
            let lefts = gather(l, from_left_fields(r, level));
            let w = field_count(r, level);
            &&& lefts.len() == total(l, w)
            &&& forall|i: int|
                0 <= i < l.len() ==> field_errors_at(
                    lefts,
                    total(l.take(i), w) as int,
                    #[trigger] l[i],
                    r,
                    level,
                )
        }),
{
    let f = from_left_fields(r, level);
    let w = field_count(r, level);
    let cf = |a: FieldView| f(a).len();
    let lefts = gather(l, f);
    assert forall|a: FieldView| #[trigger] cf(a) == w(a) by {
        lemma_own_field_errors(a, r, level);
        assert(f(a) == left_field_errors(a, r, level));
    }
    lemma_gather_len(l, f);
    lemma_total_same(l, cf, w);
    assert forall|i: int| 0 <= i < l.len() implies field_errors_at(
        lefts,
        total(l.take(i), w) as int,
        #[trigger] l[i],
        r,
        level,
    ) by {
        lemma_total_same(l.take(i), cf, w);
        lemma_left_field_at(l, r, level, i);
    }
}

/// The errors of a field of the left side stand behind those of the fields before.
proof fn lemma_left_field_at(l: Seq<FieldView>, r: Seq<FieldView>, level: CheckLevel, i: int)
    requires
        0 <= i < l.len(),
    ensures
        field_errors_at(
            gather(l, from_left_fields(r, level)),
            total(l.take(i), |a: FieldView| from_left_fields(r, level)(a).len()) as int,
            l[i],
            r,
            level,
        ),
{
    let f = from_left_fields(r, level);
    let own = left_field_errors(l[i], r, level);
    let lefts = gather(l, f);
    let at = total(l.take(i), |a: FieldView| f(a).len()) as int;
    lemma_own_field_errors(l[i], r, level);
    assert(f(l[i]) == own);
    lemma_gather_slice(l, f, i);
    lemma_field_errors_moved(own, 0, lefts, at, l[i], r, level);
}

/// The errors on the fields that the left side lacks, one behind the other.
proof fn lemma_right_fields(l: Seq<FieldView>, r: Seq<FieldView>)
    ensures
        ({
            let rights = gather(r, from_right_fields(l));
            let v = field_lack(l);
            &&& rights.len() == total(r, v)
            &&& forall|i: int|
                0 <= i < r.len() && !has_partner(#[trigger] r[i], l) ==> {
                    let at = total(r.take(i), v) as int;
                    0 <= at < rights.len() && rights[at] == FieldSetErrorView::LhsMissingfield(
                        r[i].name,
                    )
                }
        }),
{
    let g = from_right_fields(l);
    let v = field_lack(l);
    let cg = |a: FieldView| g(a).len();
    let rights = gather(r, g);
    assert forall|a: FieldView| #[trigger] cg(a) == v(a) by {
        lemma_partner_found(a, l);
        assert(g(a) == right_field_errors(a, l));
    }
    lemma_gather_len(r, g);
    lemma_total_same(r, cg, v);
    assert forall|i: int| 0 <= i < r.len() && !has_partner(#[trigger] r[i], l) implies {
        let at = total(r.take(i), v) as int;
        0 <= at < rights.len() && rights[at] == FieldSetErrorView::LhsMissingfield(r[i].name)
    } by {
        lemma_partner_found(r[i], l);
        assert(cg(r[i]) == v(r[i]));
        assert(g(r[i]) == right_field_errors(r[i], l));
        lemma_gather_at(r, g, i, 0);
        lemma_total_same(r.take(i), cg, v);
    }
}

/// How many errors the fieldsets of two registers give.
pub open spec fn register_set_count(
    ir: IrView,
    l: Option<Seq<char>>,
    r: Option<Seq<char>>,
    level: CheckLevel,
) -> nat {
    match (l, r) {
        (Some(a), Some(b)) => fieldset_errors(
            lookup(ir.fieldsets, a)->0,
            lookup(ir.fieldsets, b)->0,
            level,
        ).len(),
        (None, None) => 0,
        _ => 1,
    }
}

/// Whether the errors from `at` on are those of the inner parts of two items, and
/// the last: for nested blocks each error of the blocks; for registers the mismatch
/// of access, that of size, and then each error of the fieldsets; for a block and a
/// register one.
#[verifier::opaque]
pub open spec fn inner_errors_at(
    ir: IrView,
    errors: Seq<BlockItemErrorView>,
    at: int,
    l: BlockItemInnerView,
    r: BlockItemInnerView,
    level: CheckLevel,
) -> bool {
    match (l, r) {
        (BlockItemInnerView::Block { block: a }, BlockItemInnerView::Block { block: b }) => {
            let lb = lookup(ir.blocks, a);
            let rb = lookup(ir.blocks, b);
            let nested = block_errors(ir, lb->0, rb->0, level);
            &&& lb is Some
            &&& rb is Some
            &&& blocks_comparable(ir, lb->0, rb->0)
            &&& errors.len() == at + nested.len()
            &&& forall|k: int|
                0 <= k < nested.len() ==> errors[at + k] == BlockItemErrorView::Block(
                    Box::new(#[trigger] nested[k]),
                )
        },
        (
            BlockItemInnerView::Register { access: a1, bit_size: s1, fieldset: f1 },
            BlockItemInnerView::Register { access: a2, bit_size: s2, fieldset: f2 },
        ) => {
            let a = bit(a1 != a2);
            let s = bit(s1 != s2);
            &&& errors.len() == at + a + s + register_set_count(ir, f1, f2, level)
            &&& a1 != a2 ==> errors[at] == BlockItemErrorView::RegisterAccessMismatch(a1, a2)
            &&& s1 != s2 ==> errors[at + a] == BlockItemErrorView::RegisterSizeMismatch(s1, s2)
            &&& match (f1, f2) {
                (Some(x), Some(y)) => {
                    let sets = fieldset_errors(
                        lookup(ir.fieldsets, x)->0,
                        lookup(ir.fieldsets, y)->0,
                        level,
                    );
                    &&& lookup(ir.fieldsets, x) is Some
                    &&& lookup(ir.fieldsets, y) is Some
                    &&& forall|k: int|
                        0 <= k < sets.len() ==> errors[at + a + s + k]
                            == BlockItemErrorView::FieldSet(#[trigger] sets[k])
                },
                (Some(_), None) => errors[at + a + s] == BlockItemErrorView::FieldSetXor(
                    true,
                    false,
                ),
                (None, Some(_)) => errors[at + a + s] == BlockItemErrorView::FieldSetXor(
                    false,
                    true,
                ),
                (None, None) => true,
            }
        },
        (BlockItemInnerView::Block { .. }, BlockItemInnerView::Register { .. }) => {
            errors.len() == at + 1 && errors[at] == BlockItemErrorView::InnerXor(true)
        },
        (BlockItemInnerView::Register { .. }, BlockItemInnerView::Block { .. }) => {
            errors.len() == at + 1 && errors[at] == BlockItemErrorView::InnerXor(false)
        },
    }
}

/// The errors of the inner parts are those.
proof fn lemma_inner_differences(
    ir: IrView,
    before: Seq<BlockItemErrorView>,
    l: BlockItemInnerView,
    r: BlockItemInnerView,
    level: CheckLevel,
    depth: nat,
)
    requires
        inners_meet(ir, l, r, depth),
    ensures
        inner_errors_at(
            ir,
            before + inner_errors_to(ir, l, r, level, depth),
            before.len() as int,
            l,
            r,
            level,
        ),
{
    reveal(inner_errors_at);
    let inner = inner_errors_to(ir, l, r, level, depth);
    let errors = before + inner;
    let at = before.len() as int;
    assert forall|k: int| 0 <= k < inner.len() implies errors[at + k] == #[trigger] inner[k] by {
    }
    match (l, r) {
        (BlockItemInnerView::Block { block: a }, BlockItemInnerView::Block { block: b }) => {
            let (lb, rb) = (lookup(ir.blocks, a)->0, lookup(ir.blocks, b)->0);
            let d = (depth - 1) as nat;
            assert(blocks_meet(ir, lb, rb, d));
            let chosen = choose|d: nat| #[trigger] blocks_meet(ir, lb, rb, d);
            lemma_depth_block(ir, lb, rb, level, d, chosen);
            let nested = block_errors(ir, lb, rb, level);
            assert forall|k: int| 0 <= k < nested.len() implies errors[at + k]
                == BlockItemErrorView::Block(Box::new(#[trigger] nested[k])) by {
                assert(errors[at + k] == inner[k]);
            }
        },
        (
            BlockItemInnerView::Register { access: a1, bit_size: s1, fieldset: f1 },
            BlockItemInnerView::Register { access: a2, bit_size: s2, fieldset: f2 },
        ) => {
            let a = bit(a1 != a2) as int;
            let s = bit(s1 != s2) as int;
            let more = register_fieldset_errors(ir, f1, f2, level);
            assert(inner.len() == a + s + more.len());
            assert forall|k: int| 0 <= k < more.len() implies errors[at + a + s + k]
                == #[trigger] more[k] by {
                assert(inner[a + s + k] == more[k]);
                assert(errors[at + (a + s + k)] == inner[a + s + k]);
            }
            if a1 != a2 {
                assert(errors[at + 0] == inner[0]);
            }
            if s1 != s2 {
                assert(errors[at + a] == inner[a]);
            }
            match (f1, f2) {
                (Some(x), Some(y)) => {
                    let sets = fieldset_errors(
                        lookup(ir.fieldsets, x)->0,
                        lookup(ir.fieldsets, y)->0,
                        level,
                    );
                    assert forall|k: int| 0 <= k < sets.len() implies errors[at + a + s + k]
                        == BlockItemErrorView::FieldSet(#[trigger] sets[k]) by {
                        assert(errors[at + a + s + k] == more[k]);
                    }
                },
                (None, None) => {},
                _ => {
                    assert(errors[at + a + s + 0] == more[0]);
                },
            }
        },
        _ => {
            assert(errors[at + 0] == inner[0]);
        },
    }
}

/// Items differ first in their descriptions, then in their arrays, then in their
/// inner parts.
pub proof fn lemma_item_differences(
    ir: IrView,
    l: BlockItemView,
    r: BlockItemView,
    level: CheckLevel,
)
    requires
        items_comparable(ir, l, r),
    ensures
        ({
            let errors = item_errors(ir, l, r, level);
            let described = looks_at_descriptions(level) && l.description != r.description;
            let d = bit(described) as int;
            let n = array_count(l.array, r.array) as int;
            &&& errors.len() >= d + n
            &&& described ==> errors[0] == BlockItemErrorView::Description(
                l.description,
                r.description,
            )
            &&& match (l.array, r.array) {
                (Some(a), Some(b)) => forall|k: int|
                    0 <= k < n ==> errors[d + k] == BlockItemErrorView::Array(
                        #[trigger] array_errors(a, b)[k],
                    ),
                (Some(_), None) => errors[d] == BlockItemErrorView::ArrayXor(true, false),
                (None, Some(_)) => errors[d] == BlockItemErrorView::ArrayXor(false, true),
                (None, None) => true,
            }
            &&& inner_errors_at(ir, errors, d + n, l.inner, r.inner, level)
        }),
{
    let depth = choose|depth: nat| #[trigger] inners_meet(ir, l.inner, r.inner, depth);
    let errors = item_errors(ir, l, r, level);
    let described = looks_at_descriptions(level) && l.description != r.description;
    let d = bit(described) as int;
    let one = one_if(described, BlockItemErrorView::Description(l.description, r.description));
    let arrays = item_array_errors(l.array, r.array);
    let before = one + arrays;
    lemma_inner_differences(ir, before, l.inner, r.inner, level, depth);
    assert(errors == before + inner_errors_to(ir, l.inner, r.inner, level, depth));
    assert(before.len() == d + array_count(l.array, r.array));
    assert forall|k: int| 0 <= k < arrays.len() implies errors[d + k] == #[trigger] arrays[k] by {
        assert(before[d + k] == arrays[k]);
    }
    match (l.array, r.array) {
        (Some(a), Some(b)) => {
            assert forall|k: int| 0 <= k < array_errors(a, b).len() implies errors[d + k]
                == BlockItemErrorView::Array(#[trigger] array_errors(a, b)[k]) by {
                assert(errors[d + k] == arrays[k]);
            }
        },
        (None, None) => {},
        _ => {
            assert(errors[d + 0] == arrays[0]);
        },
    }
}

/// Whether item `j` is the first of the items at the offset of `i`.
pub open spec fn is_item_partner(i: BlockItemView, items: Seq<BlockItemView>, j: int) -> bool {
    &&& 0 <= j < items.len()
    &&& items[j].byte_offset == i.byte_offset
    &&& forall|k: int| 0 <= k < j ==> (#[trigger] items[k]).byte_offset != i.byte_offset
}

/// Whether one of the items stands at the offset of `i`.
pub open spec fn has_item_partner(i: BlockItemView, items: Seq<BlockItemView>) -> bool {
    exists|j: int| #[trigger] is_item_partner(i, items, j)
}

/// How many errors an item of the left side gives.
pub open spec fn item_count(ir: IrView, items: Seq<BlockItemView>, level: CheckLevel) -> spec_fn(
    BlockItemView,
) -> nat {
    |i: BlockItemView|
        if has_item_partner(i, items) {
            let p = items[choose|j: int| #[trigger] is_item_partner(i, items, j)];
            bit(looks_at_names(level) && i.name != p.name) + item_errors(ir, i, p, level).len()
        } else {
            1nat
        }
}

/// One for each item that has no partner.
pub open spec fn item_lack(items: Seq<BlockItemView>) -> spec_fn(BlockItemView) -> nat {
    |i: BlockItemView| bit(!has_item_partner(i, items))
}

/// The partner is the first at the offset.
pub proof fn lemma_item_partner_found(i: BlockItemView, items: Seq<BlockItemView>)
    ensures
        match first(items, at_offset(i.byte_offset)) {
            Some(p) => has_item_partner(i, items) && items[choose|j: int| #[trigger]
                is_item_partner(i, items, j)] == p,
            None => !has_item_partner(i, items),
        },
        forall|j: int| #[trigger]
            is_item_partner(i, items, j) ==> first(items, at_offset(i.byte_offset)) == Some(
                items[j],
            ),
{
    let p = at_offset(i.byte_offset);
    assert forall|j: int| #[trigger] is_item_partner(i, items, j) implies first(items, p) == Some(
        items[j],
    ) by {
        assert(is_first(items, p, j)) by {
            assert forall|k: int| 0 <= k < j implies !p(#[trigger] items[k]) by {
                assert(items[k].byte_offset != i.byte_offset);
            }
        }
        lemma_first(items, p, j);
    }
    if first(items, p) is Some {
        lemma_first_is_element(items, p);
        let j = choose|j: int| #[trigger] is_first(items, p, j) && items[j] == first(items, p)->0;
        assert forall|k: int| 0 <= k < j implies (#[trigger] items[k]).byte_offset
            != i.byte_offset by {
            assert(!p(items[k]));
        }
        assert(is_item_partner(i, items, j));
    }
}

/// Whether the errors from `at` on are those of an item of the left side: that it
/// has no partner, or the mismatch of the names and then each error of the items.
#[verifier::opaque]
pub open spec fn item_errors_at(
    ir: IrView,
    errors: Seq<BlockErrorView>,
    at: int,
    i: BlockItemView,
    items: Seq<BlockItemView>,
    level: CheckLevel,
) -> bool {
    &&& !has_item_partner(i, items) ==> 0 <= at < errors.len() && errors[at]
        == BlockErrorView::RhsMissingItem(i.name)
    &&& forall|j: int| #[trigger]
        is_item_partner(i, items, j) ==> {
            let p = items[j];
            let renamed = looks_at_names(level) && i.name != p.name;
            &&& items_comparable(ir, i, p)
            &&& renamed ==> 0 <= at < errors.len() && errors[at] == (BlockErrorView::NameMismatch {
                lhs: i.name,
                rhs: p.name,
                byte_offset: i.byte_offset,
            })
            &&& forall|k: int|
                0 <= k < item_errors(ir, i, p, level).len() ==> {
                    let e = #[trigger] item_errors(ir, i, p, level)[k];
                    let n = at + bit(renamed) + k;
                    0 <= n < errors.len() && errors[n] == BlockErrorView::Item(
                        i.name,
                        i.byte_offset,
                        e,
                    )
                }
        }
}

/// The errors of an item of the left side are those.
proof fn lemma_own_item_errors(
    ir: IrView,
    i: BlockItemView,
    items: Seq<BlockItemView>,
    level: CheckLevel,
    depth: nat,
)
    requires
        item_meets(ir, i, items, depth),
    ensures
        item_errors_at(ir, left_item_errors_to(ir, i, items, level, depth), 0, i, items, level),
        left_item_errors_to(ir, i, items, level, depth).len() == item_count(ir, items, level)(i),
{
    reveal(item_errors_at);
    lemma_item_partner_found(i, items);
    let own = left_item_errors_to(ir, i, items, level, depth);
    if let Some(p) = first(items, at_offset(i.byte_offset)) {
        assert(inners_meet(ir, i.inner, p.inner, depth));
        let chosen = choose|d: nat| #[trigger] inners_meet(ir, i.inner, p.inner, d);
        lemma_depth_inner(ir, i.inner, p.inner, level, depth, chosen);
        assert(item_errors(ir, i, p, level) == item_errors_to(ir, i, p, level, depth));
        assert(items_comparable(ir, i, p));
    }
    assert forall|j: int| #[trigger] is_item_partner(i, items, j) implies {
        let p = items[j];
        let renamed = looks_at_names(level) && i.name != p.name;
        &&& items_comparable(ir, i, p)
        &&& renamed ==> 0 < own.len() && own[0] == (BlockErrorView::NameMismatch {
            lhs: i.name,
            rhs: p.name,
            byte_offset: i.byte_offset,
        })
        &&& forall|k: int|
            0 <= k < item_errors(ir, i, p, level).len() ==> {
                let e = #[trigger] item_errors(ir, i, p, level)[k];
                let n = bit(renamed) + k;
                0 <= n < own.len() && own[n] == BlockErrorView::Item(i.name, i.byte_offset, e)
            }
    } by {
        assert(first(items, at_offset(i.byte_offset)) == Some(items[j]));
    }
}

/// Errors that stand behind others are the same errors.
proof fn lemma_item_errors_moved(
    ir: IrView,
    own: Seq<BlockErrorView>,
    from: int,
    errors: Seq<BlockErrorView>,
    by: int,
    i: BlockItemView,
    items: Seq<BlockItemView>,
    level: CheckLevel,
)
    requires
        item_errors_at(ir, own, from, i, items, level),
        0 <= by,
        by + own.len() <= errors.len(),
        errors.subrange(by, by + own.len()) == own,
    ensures
        item_errors_at(ir, errors, by + from, i, items, level),
{
    reveal(item_errors_at);
    let at = by + from;
    assert forall|k: int| 0 <= k < own.len() implies errors[by + k] == #[trigger] own[k] by {
        assert(errors.subrange(by, by + own.len())[k] == errors[by + k]);
    }
    if !has_item_partner(i, items) {
        assert(errors[by + from] == own[from]);
    }
    assert forall|j: int| #[trigger] is_item_partner(i, items, j) implies {
        let p = items[j];
        let renamed = looks_at_names(level) && i.name != p.name;
        &&& items_comparable(ir, i, p)
        &&& renamed ==> 0 <= at < errors.len() && errors[at] == (BlockErrorView::NameMismatch {
            lhs: i.name,
            rhs: p.name,
            byte_offset: i.byte_offset,
        })
        &&& forall|k: int|
            0 <= k < item_errors(ir, i, p, level).len() ==> {
                let e = #[trigger] item_errors(ir, i, p, level)[k];
                let n = at + bit(renamed) + k;
                0 <= n < errors.len() && errors[n] == BlockErrorView::Item(
                    i.name,
                    i.byte_offset,
                    e,
                )
            }
    } by {
        let p = items[j];
        let renamed = looks_at_names(level) && i.name != p.name;
        if renamed {
            assert(errors[by + from] == own[from]);
        }
        assert forall|k: int| 0 <= k < item_errors(ir, i, p, level).len() implies {
            let e = #[trigger] item_errors(ir, i, p, level)[k];
            let n = at + bit(renamed) + k;
            0 <= n < errors.len() && errors[n] == BlockErrorView::Item(i.name, i.byte_offset, e)
        } by {
            let m = from + bit(renamed) + k;
            assert(errors[by + m] == own[m]);
        }
    }
}

/// The errors of an item of the left side stand behind those of the items before.
proof fn lemma_left_item_at(
    ir: IrView,
    l: Seq<BlockItemView>,
    r: Seq<BlockItemView>,
    level: CheckLevel,
    depth: nat,
    i: int,
)
    requires
        0 <= i < l.len(),
        item_meets(ir, l[i], r, depth),
    ensures
        item_errors_at(
            ir,
            gather(l, from_left_items(ir, r, level, depth)),
            total(
                l.take(i),
                |a: BlockItemView| from_left_items(ir, r, level, depth)(a).len(),
            ) as int,
            l[i],
            r,
            level,
        ),
{
    let f = from_left_items(ir, r, level, depth);
    let own = left_item_errors_to(ir, l[i], r, level, depth);
    let lefts = gather(l, f);
    let at = total(l.take(i), |a: BlockItemView| f(a).len()) as int;
    lemma_own_item_errors(ir, l[i], r, level, depth);
    assert(f(l[i]) == own);
    lemma_gather_slice(l, f, i);
    lemma_item_errors_moved(ir, own, 0, lefts, at, l[i], r, level);
}

/// The errors of the items of the left side, one behind the other.
proof fn lemma_left_items(
    ir: IrView,
    l: Seq<BlockItemView>,
    r: Seq<BlockItemView>,
    level: CheckLevel,
    depth: nat,
)
    requires
        forall|i: int| 0 <= i < l.len() ==> item_meets(ir, #[trigger] l[i], r, depth),
    ensures
        ({
            let lefts = gather(l, from_left_items(ir, r, level, depth));
            let w = item_count(ir, r, level);
            &&& lefts.len() == total(l, w)
            &&& forall|i: int|
                0 <= i < l.len() ==> item_errors_at(
                    ir,
                    lefts,
                    total(l.take(i), w) as int,
                    #[trigger] l[i],
                    r,
                    level,
                )
        }),
{
    let f = from_left_items(ir, r, level, depth);
    let w = item_count(ir, r, level);
    let cf = |a: BlockItemView| f(a).len();
    let lefts = gather(l, f);
    assert forall|i: int| 0 <= i < l.len() implies cf(#[trigger] l[i]) == w(l[i]) by {
        lemma_own_item_errors(ir, l[i], r, level, depth);
        assert(f(l[i]) == left_item_errors_to(ir, l[i], r, level, depth));
    }
    lemma_gather_len(l, f);
    lemma_total_same(l, cf, w);
    assert forall|i: int| 0 <= i < l.len() implies item_errors_at(
        ir,
        lefts,
        total(l.take(i), w) as int,
        #[trigger] l[i],
        r,
        level,
    ) by {
        let before = l.take(i);
        assert forall|j: int| 0 <= j < before.len() implies cf(#[trigger] before[j]) == w(
            before[j],
        ) by {
            assert(cf(l[j]) == w(l[j]));
        }
        lemma_total_same(before, cf, w);
        lemma_left_item_at(ir, l, r, level, depth, i);
    }
}

/// The errors on the items that the left side lacks, one behind the other.
proof fn lemma_right_items(l: Seq<BlockItemView>, r: Seq<BlockItemView>)
    ensures
        ({
            let rights = gather(r, from_right_items(l));
            let v = item_lack(l);
            &&& rights.len() == total(r, v)
            &&& forall|i: int|
                0 <= i < r.len() && !has_item_partner(#[trigger] r[i], l) ==> {
                    let at = total(r.take(i), v) as int;
                    0 <= at < rights.len() && rights[at] == BlockErrorView::LhsMissingItem(
                        r[i].name,
                    )
                }
        }),
{
    let g = from_right_items(l);
    let v = item_lack(l);
    let cg = |a: BlockItemView| g(a).len();
    let rights = gather(r, g);
    assert forall|a: BlockItemView| #[trigger] cg(a) == v(a) by {
        lemma_item_partner_found(a, l);
        assert(g(a) == right_item_errors(a, l));
    }
    lemma_gather_len(r, g);
    lemma_total_same(r, cg, v);
    assert forall|i: int| 0 <= i < r.len() && !has_item_partner(#[trigger] r[i], l) implies {
        let at = total(r.take(i), v) as int;
        0 <= at < rights.len() && rights[at] == BlockErrorView::LhsMissingItem(r[i].name)
    } by {
        lemma_item_partner_found(r[i], l);
        assert(cg(r[i]) == v(r[i]));
        assert(g(r[i]) == right_item_errors(r[i], l));
        lemma_gather_at(r, g, i, 0);
        lemma_total_same(r.take(i), cg, v);
    }
}

/// Blocks differ first in their descriptions, then in what they extend; then come
/// the errors of each item of the left side, in order, and then those on the items
/// of the right side at whose offset the left side has none, in order.
#[verifier::spinoff_prover]
#[verifier::rlimit(40)]
pub proof fn lemma_block_differences(ir: IrView, l: BlockView, r: BlockView, level: CheckLevel)
    requires
        blocks_comparable(ir, l, r),
    ensures
        ({
            let errors = block_errors(ir, l, r, level);
            let described = looks_at_descriptions(level) && l.description != r.description;
            let d = bit(described) as int;
            let start = d + bit(l.extends != r.extends);
            let w = item_count(ir, r.items, level);
            let v = item_lack(l.items);
            &&& errors.len() == start + total(l.items, w) + total(r.items, v)
            &&& described ==> errors[0] == BlockErrorView::Description(
                l.description,
                r.description,
            )
            &&& l.extends != r.extends ==> errors[d] == BlockErrorView::Extends(
                l.extends,
                r.extends,
            )
            &&& forall|i: int|
                0 <= i < l.items.len() ==> item_errors_at(
                    ir,
                    errors,
                    start + total(l.items.take(i), w),
                    #[trigger] l.items[i],
                    r.items,
                    level,
                )
            &&& forall|i: int|
                0 <= i < r.items.len() && !has_item_partner(#[trigger] r.items[i], l.items) ==> {
                    let at = start + total(l.items, w) + total(r.items.take(i), v);
                    0 <= at < errors.len() && errors[at] == BlockErrorView::LhsMissingItem(
                        r.items[i].name,
                    )
                }
        }),
{
    let depth = choose|depth: nat| #[trigger] blocks_meet(ir, l, r, depth);
    let errors = block_errors(ir, l, r, level);
    let w = item_count(ir, r.items, level);
    let v = item_lack(l.items);
    let lefts = gather(l.items, from_left_items(ir, r.items, level, depth));
    let rights = gather(r.items, from_right_items(l.items));
    let head = block_head_errors(l, r, level);
    assert(errors == head + lefts + rights);
    lemma_left_items(ir, l.items, r.items, level, depth);
    lemma_right_items(l.items, r.items);
    let start = head.len() as int;
    assert(errors.subrange(start, start + lefts.len()) =~= lefts);
    assert forall|k: int| 0 <= k < rights.len() implies 0 <= start + lefts.len() + k < errors.len()
        && errors[start + lefts.len() + k] == #[trigger] rights[k] by {
    }
    assert forall|i: int| 0 <= i < l.items.len() implies item_errors_at(
        ir,
        errors,
        start + total(l.items.take(i), w),
        #[trigger] l.items[i],
        r.items,
        level,
    ) by {
        lemma_item_errors_moved(
            ir,
            lefts,
            total(l.items.take(i), w) as int,
            errors,
            start,
            l.items[i],
            r.items,
            level,
        );
    }
    assert forall|i: int|
        0 <= i < r.items.len() && !has_item_partner(#[trigger] r.items[i], l.items) implies {
        let at = start + total(l.items, w) + total(r.items.take(i), v);
        0 <= at < errors.len() && errors[at] == BlockErrorView::LhsMissingItem(r.items[i].name)
    } by {
        let k = total(r.items.take(i), v) as int;
        assert(errors[start + lefts.len() + k] == rights[k]);
    }
}

} // verus!
