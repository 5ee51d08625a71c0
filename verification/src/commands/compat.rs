//! Whether two blocks, fieldsets, fields or arrays are compatible, and in what
//! they differ.
use crate::commands::compat_error::{
    ArrayError, ArrayErrorView, BlockError, BlockErrorView, BlockItemError, BlockItemErrorView,
    FieldError, FieldErrorView, FieldSetError, FieldSetErrorView,
};
use crate::ir::{
    views, Array, ArrayView, BitOffset, BitOffsetView, Block, BlockItem, BlockItemInner,
    BlockItemInnerView, BlockItemView, BlockView, Duplicate, Field, FieldSet, FieldSetView,
    FieldView, IrView, IR,
};
use crate::name_map::lookup;
use crate::seqs::{
    first, gather, is_first, lemma_first, lemma_gather_same, lemma_gather_source,
    lemma_gather_step, lemma_no_first, one_if,
};
use crate::text::{copy_opt, same_opt};
use crate::transform::common::CheckLevel;
use vstd::prelude::*;

verus! {

broadcast use vstd::seq::group_seq_axioms;

/// How two arrays differ: first in length, then in kind or stride.
pub open spec fn array_errors(l: ArrayView, r: ArrayView) -> Seq<ArrayErrorView> {
    one_if(l.len() != r.len(), ArrayErrorView::Len(l.len(), r.len())) + match (l, r) {
        (ArrayView::Regular(a), ArrayView::Regular(b)) => one_if(
            a.stride != b.stride,
            ArrayErrorView::Stride(a.stride, b.stride),
        ),
        (ArrayView::Cursed(_), ArrayView::Cursed(_)) => seq![],
        _ => seq![ArrayErrorView::Xor(l, r)],
    }
}

/// How the arrays of two fields differ.
pub open spec fn field_array_errors(l: Option<ArrayView>, r: Option<ArrayView>) -> Seq<
    FieldErrorView,
> {
    match (l, r) {
        (Some(a), Some(b)) => array_errors(a, b).map_values(
            |e: ArrayErrorView| FieldErrorView::Array(e),
        ),
        (None, None) => seq![],
        _ => seq![FieldErrorView::ArrayXor(l is Some, r is Some)],
    }
}

/// How two fields of one place differ.
pub open spec fn field_errors(l: FieldView, r: FieldView, level: CheckLevel) -> Seq<
    FieldErrorView,
> {
    field_array_errors(l.array, r.array) + one_if(
        level.covers(CheckLevel::Descriptions) && l.description != r.description,
        FieldErrorView::Description(l.description, r.description),
    ) + one_if(l.enumm != r.enumm, FieldErrorView::Enum(l.enumm, r.enumm))
}

/// The fields that take these bits.
pub open spec fn in_place(bit_offset: BitOffsetView, bit_size: u32) -> spec_fn(FieldView) -> bool {
    |f: FieldView| f.bit_offset == bit_offset && f.bit_size == bit_size
}

/// What a field of the left side gives: its partner on the right side is the
/// first field there that takes the same bits.
pub open spec fn left_field_errors(l: FieldView, r: Seq<FieldView>, level: CheckLevel) -> Seq<
    FieldSetErrorView,
> {
    match first(r, in_place(l.bit_offset, l.bit_size)) {
        None => seq![FieldSetErrorView::RhsMissingField(l.name)],
        Some(partner) => one_if(
            level.covers(CheckLevel::Names) && l.name != partner.name,
            FieldSetErrorView::NameMismatch {
                lhs: l.name,
                rhs: partner.name,
                bit_size: l.bit_size,
                bit_offset: l.bit_offset,
            },
        ) + field_errors(l, partner, level).map_values(field_error_at(l)),
    }
}

/// The error of a field, with the place of the left field.
pub open spec fn field_error_at(l: FieldView) -> spec_fn(FieldErrorView) -> FieldSetErrorView {
    |e: FieldErrorView|
        FieldSetErrorView::Field {
            lhs_name: l.name,
            bit_size: l.bit_size,
            bit_offset: l.bit_offset,
            error: e,
        }
}

/// What a field of the right side gives that has no partner on the left.
pub open spec fn right_field_errors(r: FieldView, l: Seq<FieldView>) -> Seq<FieldSetErrorView> {
    one_if(
        first(l, in_place(r.bit_offset, r.bit_size)) is None,
        FieldSetErrorView::LhsMissingfield(r.name),
    )
}

/// What each field of the left side gives.
pub open spec fn from_left_fields(r: Seq<FieldView>, level: CheckLevel) -> spec_fn(
    FieldView,
) -> Seq<FieldSetErrorView> {
    |f: FieldView| left_field_errors(f, r, level)
}

/// What each field of the right side gives.
pub open spec fn from_right_fields(l: Seq<FieldView>) -> spec_fn(FieldView) -> Seq<
    FieldSetErrorView,
> {
    |f: FieldView| right_field_errors(f, l)
}

/// How two fieldsets differ.
pub open spec fn fieldset_errors(l: FieldSetView, r: FieldSetView, level: CheckLevel) -> Seq<
    FieldSetErrorView,
> {
    one_if(l.extends != r.extends, FieldSetErrorView::Extends(l.extends, r.extends)) + one_if(
        l.bit_size != r.bit_size,
        FieldSetErrorView::Bitsize(l.bit_size, r.bit_size),
    ) + one_if(
        level.covers(CheckLevel::Descriptions) && l.description != r.description,
        FieldSetErrorView::Description(l.description, r.description),
    ) + gather(l.fields, from_left_fields(r.fields, level)) + gather(
        r.fields,
        from_right_fields(l.fields),
    )
}

/// Appends to `out` what `wrap` makes of each error. In views, `wrap` is `model`.
fn extend_with<E: View, F: View, W: Fn(E) -> F>(
    out: &mut Vec<F>,
    errors: Vec<E>,
    wrap: W,
    Ghost(model): Ghost<spec_fn(E::V) -> F::V>,
)
    requires
        forall|e: E| wrap.requires((e,)),
        forall|e: E, f: F| #[trigger] wrap.ensures((e,), f) ==> f@ == model(e@),
    ensures
        views(final(out)@) == views(old(out)@) + views(errors@).map_values(model),
{
    let ghost before = views(out@);
    let ghost all = views(errors@);
    for e in it: errors
        invariant
            it.seq() == errors@,
            all == views(errors@),
            forall|e: E| wrap.requires((e,)),
            forall|e: E, f: F| #[trigger] wrap.ensures((e,), f) ==> f@ == model(e@),
            views(out@) == before + all.map_values(model).take(it.index() as int),
    {
        let ghost i = it.index() as int;
        let ghost old_out = out@;
        let f = wrap(e);
        out.push(f);
        proof {
            assert(all[i] == e@);
            assert(views(out@) =~= views(old_out).push(model(e@)));
            assert(all.map_values(model).take(i + 1) =~= all.map_values(model).take(i).push(
                model(e@),
            ));
            assert(views(out@) =~= before + all.map_values(model).take(i + 1));
        }
    }
    assert(all.map_values(model).take(errors@.len() as int) =~= all.map_values(model));
}

/// Compares two arrays.
pub fn array_compat(left: &Array, right: &Array) -> (r: Vec<ArrayError>)
    ensures
        views(r@) == array_errors(left@, right@),
{
    let mut mismatches: Vec<ArrayError> = Vec::new();
    if left.len() != right.len() {
        mismatches.push(ArrayError::Len(left.len(), right.len()));
    }
    match (left, right) {
        (Array::Regular(a1), Array::Regular(a2)) => {
            if a1.stride != a2.stride {
                mismatches.push(ArrayError::Stride(a1.stride, a2.stride));
            }
        },
        (Array::Cursed(_), Array::Cursed(_)) => {},
        (a1, a2) => {
            mismatches.push(ArrayError::Xor(a1.duplicate(), a2.duplicate()));
        },
    }
    assert(views(mismatches@) =~= array_errors(left@, right@));
    mismatches
}

/// Compares two fields of one place.
pub fn field_compat(left: &Field, right: &Field, level: CheckLevel) -> (r: Vec<FieldError>)
    requires
        left@.bit_offset == right@.bit_offset,
        left@.bit_size == right@.bit_size,
    ensures
        views(r@) == field_errors(left@, right@, level),
{
    let mut mismatches: Vec<FieldError> = Vec::new();
    match (&left.array, &right.array) {
        (Some(a1), Some(a2)) => {
            let wrap = |e: ArrayError| -> (f: FieldError)
                ensures
                    f@ == FieldErrorView::Array(e@),
            {
                FieldError::Array(e)
            };
            extend_with(
                &mut mismatches,
                array_compat(a1, a2),
                wrap,
                Ghost(|e: ArrayErrorView| FieldErrorView::Array(e)),
            );
        },
        (None, None) => {},
        (a1, a2) => {
            mismatches.push(FieldError::ArrayXor(a1.is_some(), a2.is_some()));
        },
    }
    if level.includes_level(CheckLevel::Descriptions) && !same_opt(
        &left.description,
        &right.description,
    ) {
        mismatches.push(
            FieldError::Description(copy_opt(&left.description), copy_opt(&right.description)),
        );
    }
    if !same_opt(&left.enumm, &right.enumm) {
        mismatches.push(FieldError::Enum(copy_opt(&left.enumm), copy_opt(&right.enumm)));
    }
    assert(views(mismatches@) =~= field_errors(left@, right@, level));
    mismatches
}

/// The place of the first field that takes these bits.
fn find_field(fields: &Vec<Field>, bit_offset: &BitOffset, bit_size: u32) -> (r: Option<usize>)
    ensures
        match r {
            Some(i) => i < fields@.len() && first(
                views(fields@),
                in_place(bit_offset@, bit_size),
            ) == Some(fields@[i as int]@) && fields@[i as int]@.bit_offset == bit_offset@
                && fields@[i as int]@.bit_size == bit_size,
            None => first(views(fields@), in_place(bit_offset@, bit_size)) is None,
        },
{
    let ghost s = views(fields@);
    let ghost p = in_place(bit_offset@, bit_size);
    let mut i: usize = 0;
    while i < fields.len()
        invariant
            i <= fields@.len(),
            s == views(fields@),
            p == in_place(bit_offset@, bit_size),
            forall|j: int| 0 <= j < i ==> !p(#[trigger] s[j]),
        decreases fields@.len() - i,
    {
        if fields[i].bit_offset.same(bit_offset) && fields[i].bit_size == bit_size {
            proof {
                assert(is_first(s, p, i as int));
                lemma_first(s, p, i as int);
            }
            return Some(i);
        }
        i += 1;
    }
    proof {
        lemma_no_first(s, p);
    }
    None
}

/// Compares two fieldsets.
pub fn fieldset_compat(left: &FieldSet, right: &FieldSet, level: CheckLevel) -> (r: Vec<
    FieldSetError,
>)
    ensures
        views(r@) == fieldset_errors(left@, right@, level),
{
    let mut mismatches: Vec<FieldSetError> = Vec::new();
    if !same_opt(&left.extends, &right.extends) {
        mismatches.push(
            FieldSetError::Extends(copy_opt(&left.extends), copy_opt(&right.extends)),
        );
    }
    if left.bit_size != right.bit_size {
        mismatches.push(FieldSetError::Bitsize(left.bit_size, right.bit_size));
    }
    if level.includes_level(CheckLevel::Descriptions) && !same_opt(
        &left.description,
        &right.description,
    ) {
        mismatches.push(
            FieldSetError::Description(copy_opt(&left.description), copy_opt(&right.description)),
        );
    }
    let ghost head = views(mismatches@);
    let ghost lf = left@.fields;
    let ghost rf = right@.fields;
    let ghost from_left = from_left_fields(rf, level);
    let ghost from_right = from_right_fields(lf);
    proof {
        assert(head =~= one_if(
            left@.extends != right@.extends,
            FieldSetErrorView::Extends(left@.extends, right@.extends),
        ) + one_if(
            left@.bit_size != right@.bit_size,
            FieldSetErrorView::Bitsize(left@.bit_size, right@.bit_size),
        ) + one_if(
            level.covers(CheckLevel::Descriptions) && left@.description != right@.description,
            FieldSetErrorView::Description(left@.description, right@.description),
        ));
        assert(head + gather(lf.take(0), from_left) =~= head);
    }
    let mut i: usize = 0;
    while i < left.fields.len()
        invariant
            i <= left.fields@.len(),
            lf == views(left.fields@),
            rf == views(right.fields@),
            from_left == from_left_fields(rf, level),
            views(mismatches@) == head + gather(lf.take(i as int), from_left),
        decreases left.fields@.len() - i,
    {
        let l = &left.fields[i];
        let ghost before = views(mismatches@);
        match find_field(&right.fields, &l.bit_offset, l.bit_size) {
            None => {
                mismatches.push(FieldSetError::RhsMissingField(l.name.clone()));
            },
            Some(k) => {
                let r = &right.fields[k];
                if level.includes_level(CheckLevel::Names) && l.name != r.name {
                    mismatches.push(
                        FieldSetError::NameMismatch {
                            lhs: l.name.clone(),
                            rhs: r.name.clone(),
                            bit_size: l.bit_size,
                            bit_offset: l.bit_offset.duplicate(),
                        },
                    );
                }
                let wrap = |error: FieldError| -> (f: FieldSetError)
                    ensures
                        f@ == field_error_at(l@)(error@),
                {
                    FieldSetError::Field {
                        lhs_name: l.name.clone(),
                        bit_size: l.bit_size,
                        bit_offset: l.bit_offset.duplicate(),
                        error,
                    }
                };
                extend_with(
                    &mut mismatches,
                    field_compat(l, r, level),
                    wrap,
                    Ghost(field_error_at(l@)),
                );
            },
        }
        proof {
            assert(lf[i as int] == l@);
            assert(views(mismatches@) =~= before + left_field_errors(l@, rf, level));
            lemma_gather_step(lf, from_left, i as int);
            assert(views(mismatches@) =~= head + gather(lf.take(i + 1), from_left));
        }
        i += 1;
    }
    assert(lf.take(i as int) =~= lf);
    let ghost body = views(mismatches@);
    assert(body + gather(rf.take(0), from_right) =~= body);
    let mut k: usize = 0;
    while k < right.fields.len()
        invariant
            k <= right.fields@.len(),
            lf == views(left.fields@),
            rf == views(right.fields@),
            from_right == from_right_fields(lf),
            views(mismatches@) == body + gather(rf.take(k as int), from_right),
        decreases right.fields@.len() - k,
    {
        let r = &right.fields[k];
        let ghost before = views(mismatches@);
        if find_field(&left.fields, &r.bit_offset, r.bit_size).is_none() {
            mismatches.push(FieldSetError::LhsMissingfield(r.name.clone()));
        }
        proof {
            assert(rf[k as int] == r@);
            assert(views(mismatches@) =~= before + right_field_errors(r@, lf));
            lemma_gather_step(rf, from_right, k as int);
            assert(views(mismatches@) =~= body + gather(rf.take(k + 1), from_right));
        }
        k += 1;
    }
    assert(rf.take(k as int) =~= rf);
    mismatches
}

/// The items at this offset.
pub open spec fn at_offset(byte_offset: u32) -> spec_fn(BlockItemView) -> bool {
    |i: BlockItemView| i.byte_offset == byte_offset
}

/// How the arrays of two items differ.
pub open spec fn item_array_errors(l: Option<ArrayView>, r: Option<ArrayView>) -> Seq<
    BlockItemErrorView,
> {
    match (l, r) {
        (Some(a), Some(b)) => array_errors(a, b).map_values(
            |e: ArrayErrorView| BlockItemErrorView::Array(e),
        ),
        (None, None) => seq![],
        _ => seq![BlockItemErrorView::ArrayXor(l is Some, r is Some)],
    }
}

/// How the fieldsets of two registers differ.
pub open spec fn register_fieldset_errors(
    ir: IrView,
    l: Option<Seq<char>>,
    r: Option<Seq<char>>,
    level: CheckLevel,
) -> Seq<BlockItemErrorView> {
    match (l, r) {
        (Some(a), Some(b)) => fieldset_errors(
            lookup(ir.fieldsets, a)->0,
            lookup(ir.fieldsets, b)->0,
            level,
        ).map_values(|e: FieldSetErrorView| BlockItemErrorView::FieldSet(e)),
        (None, None) => seq![],
        _ => seq![BlockItemErrorView::FieldSetXor(l is Some, r is Some)],
    }
}

/// The error of a nested block.
pub open spec fn nested_error() -> spec_fn(BlockErrorView) -> BlockItemErrorView {
    |e: BlockErrorView| BlockItemErrorView::Block(Box::new(e))
}

/// How the inner parts of two items differ, nested blocks being followed `depth`
/// levels down.
pub open spec fn inner_errors_to(
    ir: IrView,
    l: BlockItemInnerView,
    r: BlockItemInnerView,
    level: CheckLevel,
    depth: nat,
) -> Seq<BlockItemErrorView>
    decreases depth, 0nat,
{
    match (l, r) {
        (BlockItemInnerView::Block { block: a }, BlockItemInnerView::Block { block: b }) => {
            if depth == 0 {
                seq![]
            } else {
                block_errors_to(
                    ir,
                    lookup(ir.blocks, a)->0,
                    lookup(ir.blocks, b)->0,
                    level,
                    (depth - 1) as nat,
                ).map_values(nested_error())
            }
        },
        (
            BlockItemInnerView::Register { access: a1, bit_size: s1, fieldset: f1 },
            BlockItemInnerView::Register { access: a2, bit_size: s2, fieldset: f2 },
        ) => {
            one_if(a1 != a2, BlockItemErrorView::RegisterAccessMismatch(a1, a2)) + one_if(
                s1 != s2,
                BlockItemErrorView::RegisterSizeMismatch(s1, s2),
            ) + register_fieldset_errors(ir, f1, f2, level)
        },
        _ => seq![BlockItemErrorView::InnerXor(l is Block)],
    }
}

/// How two items of one offset differ.
pub open spec fn item_errors_to(
    ir: IrView,
    l: BlockItemView,
    r: BlockItemView,
    level: CheckLevel,
    depth: nat,
) -> Seq<BlockItemErrorView>
    decreases depth, 1nat,
{
    one_if(
        level.covers(CheckLevel::Descriptions) && l.description != r.description,
        BlockItemErrorView::Description(l.description, r.description),
    ) + item_array_errors(l.array, r.array) + inner_errors_to(ir, l.inner, r.inner, level, depth)
}

/// The error of an item, with the name and the offset of the left item.
pub open spec fn item_error_at(l: BlockItemView) -> spec_fn(BlockItemErrorView) -> BlockErrorView {
    |e: BlockItemErrorView| BlockErrorView::Item(l.name, l.byte_offset, e)
}

/// What an item of the left side gives: its partner on the right side is the
/// first item there at the same offset.
pub open spec fn left_item_errors_to(
    ir: IrView,
    l: BlockItemView,
    r: Seq<BlockItemView>,
    level: CheckLevel,
    depth: nat,
) -> Seq<BlockErrorView>
    decreases depth, 2nat,
{
    match first(r, at_offset(l.byte_offset)) {
        None => seq![BlockErrorView::RhsMissingItem(l.name)],
        Some(partner) => one_if(
            level.covers(CheckLevel::Names) && l.name != partner.name,
            BlockErrorView::NameMismatch {
                lhs: l.name,
                rhs: partner.name,
                byte_offset: l.byte_offset,
            },
        ) + item_errors_to(ir, l, partner, level, depth).map_values(item_error_at(l)),
    }
}

/// What each item of the left side gives.
pub open spec fn from_left_items(
    ir: IrView,
    r: Seq<BlockItemView>,
    level: CheckLevel,
    depth: nat,
) -> spec_fn(BlockItemView) -> Seq<BlockErrorView>
    decreases depth, 3nat,
{
    |i: BlockItemView| left_item_errors_to(ir, i, r, level, depth)
}

/// What an item of the right side gives that has no partner on the left.
pub open spec fn right_item_errors(r: BlockItemView, l: Seq<BlockItemView>) -> Seq<BlockErrorView> {
    one_if(first(l, at_offset(r.byte_offset)) is None, BlockErrorView::LhsMissingItem(r.name))
}

/// What each item of the right side gives.
pub open spec fn from_right_items(l: Seq<BlockItemView>) -> spec_fn(BlockItemView) -> Seq<
    BlockErrorView,
> {
    |i: BlockItemView| right_item_errors(i, l)
}

/// How two blocks differ in what is not an item.
pub open spec fn block_head_errors(l: BlockView, r: BlockView, level: CheckLevel) -> Seq<
    BlockErrorView,
> {
    one_if(
        level.covers(CheckLevel::Descriptions) && l.description != r.description,
        BlockErrorView::Description(l.description, r.description),
    ) + one_if(l.extends != r.extends, BlockErrorView::Extends(l.extends, r.extends))
}

/// How two blocks differ, nested blocks being followed `depth` levels down.
pub open spec fn block_errors_to(
    ir: IrView,
    l: BlockView,
    r: BlockView,
    level: CheckLevel,
    depth: nat,
) -> Seq<BlockErrorView>
    decreases depth, 4nat,
{
    block_head_errors(l, r, level) + gather(
        l.items,
        from_left_items(ir, r.items, level, depth),
    ) + gather(r.items, from_right_items(l.items))
}

/// Whether the comparison of two inner parts finds every block and fieldset that
/// it looks up, and ends within `depth` levels.
pub open spec fn inners_meet(
    ir: IrView,
    l: BlockItemInnerView,
    r: BlockItemInnerView,
    depth: nat,
) -> bool
    decreases depth, 0nat,
{
    match (l, r) {
        (BlockItemInnerView::Block { block: a }, BlockItemInnerView::Block { block: b }) => {
            &&& lookup(ir.blocks, a) is Some
            &&& lookup(ir.blocks, b) is Some
            &&& depth > 0
            &&& blocks_meet(
                ir,
                lookup(ir.blocks, a)->0,
                lookup(ir.blocks, b)->0,
                (depth - 1) as nat,
            )
        },
        (
            BlockItemInnerView::Register { fieldset: Some(a), .. },
            BlockItemInnerView::Register { fieldset: Some(b), .. },
        ) => lookup(ir.fieldsets, a) is Some && lookup(ir.fieldsets, b) is Some,
        _ => true,
    }
}

/// Whether an item of the left side can be compared with its partner, if it has
/// one.
pub open spec fn item_meets(
    ir: IrView,
    l: BlockItemView,
    r: Seq<BlockItemView>,
    depth: nat,
) -> bool
    decreases depth, 1nat,
{
    match first(r, at_offset(l.byte_offset)) {
        None => true,
        Some(partner) => inners_meet(ir, l.inner, partner.inner, depth),
    }
}

/// Whether the comparison of two blocks finds everything that it looks up, and
/// ends within `depth` levels.
pub open spec fn blocks_meet(ir: IrView, l: BlockView, r: BlockView, depth: nat) -> bool
    decreases depth, 2nat,
{
    forall|i: int|
        0 <= i < l.items.len() ==> item_meets(ir, #[trigger] l.items[i], r.items, depth)
}

/// Whether two blocks can be compared at all.
pub open spec fn blocks_comparable(ir: IrView, l: BlockView, r: BlockView) -> bool {
    exists|depth: nat| #[trigger] blocks_meet(ir, l, r, depth)
}

/// Whether two items can be compared at all.
pub open spec fn items_comparable(ir: IrView, l: BlockItemView, r: BlockItemView) -> bool {
    exists|depth: nat| #[trigger] inners_meet(ir, l.inner, r.inner, depth)
}

/// How two blocks differ.
pub open spec fn block_errors(ir: IrView, l: BlockView, r: BlockView, level: CheckLevel) -> Seq<
    BlockErrorView,
> {
    block_errors_to(ir, l, r, level, choose|depth: nat| #[trigger] blocks_meet(ir, l, r, depth))
}

/// How two items of one offset differ.
pub open spec fn item_errors(
    ir: IrView,
    l: BlockItemView,
    r: BlockItemView,
    level: CheckLevel,
) -> Seq<BlockItemErrorView> {
    item_errors_to(
        ir,
        l,
        r,
        level,
        choose|depth: nat| #[trigger] inners_meet(ir, l.inner, r.inner, depth),
    )
}

/// How far down nested blocks are followed does not matter once it is enough.
pub proof fn lemma_depth_inner(
    ir: IrView,
    l: BlockItemInnerView,
    r: BlockItemInnerView,
    level: CheckLevel,
    d: nat,
    e: nat,
)
    requires
        inners_meet(ir, l, r, d),
        inners_meet(ir, l, r, e),
    ensures
        inner_errors_to(ir, l, r, level, d) == inner_errors_to(ir, l, r, level, e),
    decreases d, 0nat,
{
    if let (BlockItemInnerView::Block { block: a }, BlockItemInnerView::Block { block: b }) = (
        l,
        r,
    ) {
        lemma_depth_block(
            ir,
            lookup(ir.blocks, a)->0,
            lookup(ir.blocks, b)->0,
            level,
            (d - 1) as nat,
            (e - 1) as nat,
        );
    }
}

/// As `lemma_depth_inner`, for blocks.
pub proof fn lemma_depth_block(
    ir: IrView,
    l: BlockView,
    r: BlockView,
    level: CheckLevel,
    d: nat,
    e: nat,
)
    requires
        blocks_meet(ir, l, r, d),
        blocks_meet(ir, l, r, e),
    ensures
        block_errors_to(ir, l, r, level, d) == block_errors_to(ir, l, r, level, e),
    decreases d, 1nat,
{
    let f = from_left_items(ir, r.items, level, d);
    let g = from_left_items(ir, r.items, level, e);
    assert forall|i: int| 0 <= i < l.items.len() implies f(#[trigger] l.items[i]) == g(
        l.items[i],
    ) by {
        let item = l.items[i];
        assert(item_meets(ir, item, r.items, d));
        assert(item_meets(ir, item, r.items, e));
        match first(r.items, at_offset(item.byte_offset)) {
            None => {},
            Some(partner) => {
                lemma_depth_inner(ir, item.inner, partner.inner, level, d, e);
            },
        }
    }
    lemma_gather_same(l.items, f, g);
}

/// The place of the first item at this offset.
pub fn find_item(items: &Vec<BlockItem>, byte_offset: u32) -> (r: Option<usize>)
    ensures
        match r {
            Some(i) => i < items@.len() && first(views(items@), at_offset(byte_offset)) == Some(
                items@[i as int]@,
            ) && items@[i as int].byte_offset == byte_offset,
            None => first(views(items@), at_offset(byte_offset)) is None,
        },
{
    let ghost s = views(items@);
    let ghost p = at_offset(byte_offset);
    let mut i: usize = 0;
    while i < items.len()
        invariant
            i <= items@.len(),
            s == views(items@),
            p == at_offset(byte_offset),
            forall|j: int| 0 <= j < i ==> !p(#[trigger] s[j]),
        decreases items@.len() - i,
    {
        if items[i].byte_offset == byte_offset {
            proof {
                assert(is_first(s, p, i as int));
                lemma_first(s, p, i as int);
            }
            return Some(i);
        }
        i += 1;
    }
    proof {
        lemma_no_first(s, p);
    }
    None
}

/// Compares the inner parts of two items.
fn inner_compat_to(
    ir: &IR,
    left: &BlockItemInner,
    right: &BlockItemInner,
    level: CheckLevel,
    Ghost(depth): Ghost<nat>,
) -> (r: Vec<BlockItemError>)
    requires
        inners_meet(ir@, left@, right@, depth),
    ensures
        views(r@) == inner_errors_to(ir@, left@, right@, level, depth),
    decreases depth, 0nat,
{
    let mut mismatches: Vec<BlockItemError> = Vec::new();
    match (left, right) {
        (BlockItemInner::Block(l), BlockItemInner::Block(r)) => {
            if let (Some(lb), Some(rb)) = (
                ir.blocks.get(l.block.as_str()),
                ir.blocks.get(r.block.as_str()),
            ) {
                let wrap = |e: BlockError| -> (f: BlockItemError)
                    ensures
                        f@ == nested_error()(e@),
                {
                    BlockItemError::Block(Box::new(e))
                };
                extend_with(
                    &mut mismatches,
                    block_compat_to(ir, lb, rb, level, Ghost((depth - 1) as nat)),
                    wrap,
                    Ghost(nested_error()),
                );
            }
        },
        (BlockItemInner::Register(l), BlockItemInner::Register(r)) => {
            if l.access != r.access {
                mismatches.push(BlockItemError::RegisterAccessMismatch(l.access, r.access));
            }
            if l.bit_size != r.bit_size {
                mismatches.push(BlockItemError::RegisterSizeMismatch(l.bit_size, r.bit_size));
            }
            match (&l.fieldset, &r.fieldset) {
                (Some(lf), Some(rf)) => {
                    if let (Some(lset), Some(rset)) = (
                        ir.fieldsets.get(lf.as_str()),
                        ir.fieldsets.get(rf.as_str()),
                    ) {
                        let wrap = |e: FieldSetError| -> (f: BlockItemError)
                            ensures
                                f@ == BlockItemErrorView::FieldSet(e@),
                        {
                            BlockItemError::FieldSet(e)
                        };
                        extend_with(
                            &mut mismatches,
                            fieldset_compat(lset, rset, level),
                            wrap,
                            Ghost(|e: FieldSetErrorView| BlockItemErrorView::FieldSet(e)),
                        );
                    }
                },
                (None, None) => {},
                (lf, rf) => {
                    mismatches.push(BlockItemError::FieldSetXor(lf.is_some(), rf.is_some()));
                },
            }
        },
        (l, _) => {
            mismatches.push(BlockItemError::InnerXor(matches!(l, BlockItemInner::Block(_))));
        },
    }
    assert(views(mismatches@) =~= inner_errors_to(ir@, left@, right@, level, depth));
    mismatches
}

/// Compares two items of one offset.
fn item_compat_to(
    ir: &IR,
    left: &BlockItem,
    right: &BlockItem,
    level: CheckLevel,
    Ghost(depth): Ghost<nat>,
) -> (r: Vec<BlockItemError>)
    requires
        left.byte_offset == right.byte_offset,
        inners_meet(ir@, left@.inner, right@.inner, depth),
    ensures
        views(r@) == item_errors_to(ir@, left@, right@, level, depth),
    decreases depth, 1nat,
{
    let mut mismatches: Vec<BlockItemError> = Vec::new();
    if level.includes_level(CheckLevel::Descriptions) && !same_opt(
        &left.description,
        &right.description,
    ) {
        mismatches.push(
            BlockItemError::Description(copy_opt(&left.description), copy_opt(&right.description)),
        );
    }
    match (&left.array, &right.array) {
        (None, None) => {},
        (Some(a1), Some(a2)) => {
            let wrap = |e: ArrayError| -> (f: BlockItemError)
                ensures
                    f@ == BlockItemErrorView::Array(e@),
            {
                BlockItemError::Array(e)
            };
            extend_with(
                &mut mismatches,
                array_compat(a1, a2),
                wrap,
                Ghost(|e: ArrayErrorView| BlockItemErrorView::Array(e)),
            );
        },
        (a1, a2) => {
            mismatches.push(BlockItemError::ArrayXor(a1.is_some(), a2.is_some()));
        },
    }
    let mut inner = inner_compat_to(ir, &left.inner, &right.inner, level, Ghost(depth));
    let ghost before = views(mismatches@);
    let ghost more = views(inner@);
    mismatches.append(&mut inner);
    assert(views(mismatches@) =~= before + more);
    assert(before =~= one_if(
        level.covers(CheckLevel::Descriptions) && left@.description != right@.description,
        BlockItemErrorView::Description(left@.description, right@.description),
    ) + item_array_errors(left@.array, right@.array));
    mismatches
}

/// Compares two blocks.
fn block_compat_to(
    ir: &IR,
    left: &Block,
    right: &Block,
    level: CheckLevel,
    Ghost(depth): Ghost<nat>,
) -> (r: Vec<BlockError>)
    requires
        blocks_meet(ir@, left@, right@, depth),
    ensures
        views(r@) == block_errors_to(ir@, left@, right@, level, depth),
    decreases depth, 2nat,
{
    let mut mismatches: Vec<BlockError> = Vec::new();
    if level.includes_level(CheckLevel::Descriptions) && !same_opt(
        &left.description,
        &right.description,
    ) {
        mismatches.push(
            BlockError::Description(copy_opt(&left.description), copy_opt(&right.description)),
        );
    }
    if !same_opt(&left.extends, &right.extends) {
        mismatches.push(BlockError::Extends(copy_opt(&left.extends), copy_opt(&right.extends)));
    }
    let ghost head = views(mismatches@);
    let ghost li = left@.items;
    let ghost ri = right@.items;
    let ghost from_left = from_left_items(ir@, ri, level, depth);
    let ghost from_right = from_right_items(li);
    proof {
        assert(head =~= block_head_errors(left@, right@, level));
        assert(head + gather(li.take(0), from_left) =~= head);
    }
    let mut i: usize = 0;
    while i < left.items.len()
        invariant
            i <= left.items@.len(),
            blocks_meet(ir@, left@, right@, depth),
            li == left@.items,
            ri == right@.items,
            from_left == from_left_items(ir@, ri, level, depth),
            views(mismatches@) == head + gather(li.take(i as int), from_left),
        decreases left.items@.len() - i,
    {
        let l = &left.items[i];
        let ghost before = views(mismatches@);
        assert(li[i as int] == l@);
        assert(item_meets(ir@, li[i as int], ri, depth));
        match find_item(&right.items, l.byte_offset) {
            None => {
                mismatches.push(BlockError::RhsMissingItem(l.name.clone()));
            },
            Some(k) => {
                let r = &right.items[k];
                if level.includes_level(CheckLevel::Names) && l.name != r.name {
                    mismatches.push(
                        BlockError::NameMismatch {
                            lhs: l.name.clone(),
                            rhs: r.name.clone(),
                            byte_offset: l.byte_offset,
                        },
                    );
                }
                let wrap = |e: BlockItemError| -> (f: BlockError)
                    ensures
                        f@ == item_error_at(l@)(e@),
                {
                    BlockError::Item(l.name.clone(), l.byte_offset, e)
                };
                extend_with(
                    &mut mismatches,
                    item_compat_to(ir, l, r, level, Ghost(depth)),
                    wrap,
                    Ghost(item_error_at(l@)),
                );
            },
        }
        proof {
            assert(views(mismatches@) =~= before + left_item_errors_to(ir@, l@, ri, level, depth));
            lemma_gather_step(li, from_left, i as int);
            assert(views(mismatches@) =~= head + gather(li.take(i + 1), from_left));
        }
        i += 1;
    }
    assert(li.take(i as int) =~= li);
    let ghost body = views(mismatches@);
    assert(body + gather(ri.take(0), from_right) =~= body);
    let mut k: usize = 0;
    while k < right.items.len()
        invariant
            k <= right.items@.len(),
            li == left@.items,
            ri == right@.items,
            from_right == from_right_items(li),
            views(mismatches@) == body + gather(ri.take(k as int), from_right),
        decreases right.items@.len() - k,
    {
        let r = &right.items[k];
        let ghost before = views(mismatches@);
        if find_item(&left.items, r.byte_offset).is_none() {
            mismatches.push(BlockError::LhsMissingItem(r.name.clone()));
        }
        proof {
            assert(ri[k as int] == r@);
            assert(views(mismatches@) =~= before + right_item_errors(r@, li));
            lemma_gather_step(ri, from_right, k as int);
            assert(views(mismatches@) =~= body + gather(ri.take(k + 1), from_right));
        }
        k += 1;
    }
    assert(ri.take(k as int) =~= ri);
    mismatches
}

/// Compares two items of one offset. The items must be comparable: see
/// `can_compare_items`.
pub fn block_item_compat(
    ir: &IR,
    left: &BlockItem,
    right: &BlockItem,
    level: CheckLevel,
) -> (r: Vec<BlockItemError>)
    requires
        left.byte_offset == right.byte_offset,
        items_comparable(ir@, left@, right@),
    ensures
        views(r@) == item_errors(ir@, left@, right@, level),
{
    item_compat_to(
        ir,
        left,
        right,
        level,
        Ghost(choose|depth: nat| #[trigger] inners_meet(ir@, left@.inner, right@.inner, depth)),
    )
}

/// Compares two blocks. The blocks must be comparable: see `can_compare_blocks`.
pub fn block_compat(ir: &IR, left: &Block, right: &Block, level: CheckLevel) -> (r: Vec<BlockError>)
    requires
        blocks_comparable(ir@, left@, right@),
    ensures
        views(r@) == block_errors(ir@, left@, right@, level),
{
    block_compat_to(
        ir,
        left,
        right,
        level,
        Ghost(choose|depth: nat| #[trigger] blocks_meet(ir@, left@, right@, depth)),
    )
}

/// Whether every error of the sequence is proper.
pub open spec fn all_fieldset_errors_proper(s: Seq<FieldSetErrorView>) -> bool {
    forall|i: int| 0 <= i < s.len() ==> (#[trigger] s[i]).proper()
}

/// Whether every error of the sequence is proper.
pub open spec fn all_block_errors_proper(s: Seq<BlockErrorView>) -> bool {
    forall|i: int| 0 <= i < s.len() ==> (#[trigger] s[i]).proper()
}

/// As `lemma_fieldset_errors_proper`, for one field of the left side.
proof fn lemma_left_field_errors_proper(l: FieldView, r: Seq<FieldView>, level: CheckLevel)
    ensures
        all_fieldset_errors_proper(left_field_errors(l, r, level)),
{
    if let Some(partner) = first(r, in_place(l.bit_offset, l.bit_size)) {
        let arrays = field_array_errors(l.array, partner.array);
        assert(forall|k: int| 0 <= k < arrays.len() ==> (#[trigger] arrays[k]).proper());
        let errors = field_errors(l, partner, level);
        assert forall|k: int| 0 <= k < errors.len() implies (#[trigger] errors[k]).proper() by {
            if k < arrays.len() {
                assert(errors[k] == arrays[k]);
            }
        }
    }
}

/// A comparison of fieldsets gives proper errors only.
pub proof fn lemma_fieldset_errors_proper(l: FieldSetView, r: FieldSetView, level: CheckLevel)
    ensures
        all_fieldset_errors_proper(fieldset_errors(l, r, level)),
{
    let f = from_left_fields(r.fields, level);
    let g = from_right_fields(l.fields);
    let lefts = gather(l.fields, f);
    let rights = gather(r.fields, g);
    assert forall|k: int| 0 <= k < lefts.len() implies (#[trigger] lefts[k]).proper() by {
        let i = lemma_gather_source(l.fields, f, k);
        let some = f(l.fields[i]);
        let j = choose|j: int| 0 <= j < some.len() && some[j] == lefts[k];
        lemma_left_field_errors_proper(l.fields[i], r.fields, level);
        assert(some[j].proper());
    }
    assert forall|k: int| 0 <= k < rights.len() implies (#[trigger] rights[k]).proper() by {
        let i = lemma_gather_source(r.fields, g, k);
        let some = g(r.fields[i]);
        let j = choose|j: int| 0 <= j < some.len() && some[j] == rights[k];
        assert(some[j].proper());
    }
}

/// A comparison of blocks gives proper errors only.
pub proof fn lemma_block_errors_proper(
    ir: IrView,
    l: BlockView,
    r: BlockView,
    level: CheckLevel,
    depth: nat,
)
    ensures
        all_block_errors_proper(block_errors_to(ir, l, r, level, depth)),
    decreases depth, 2nat,
{
    let f = from_left_items(ir, r.items, level, depth);
    let g = from_right_items(l.items);
    let lefts = gather(l.items, f);
    let rights = gather(r.items, g);
    assert forall|k: int| 0 <= k < lefts.len() implies (#[trigger] lefts[k]).proper() by {
        let i = lemma_gather_source(l.items, f, k);
        let some = f(l.items[i]);
        let j = choose|j: int| 0 <= j < some.len() && some[j] == lefts[k];
        lemma_left_item_errors_proper(ir, l.items[i], r.items, level, depth);
        assert(some[j].proper());
    }
    assert forall|k: int| 0 <= k < rights.len() implies (#[trigger] rights[k]).proper() by {
        let i = lemma_gather_source(r.items, g, k);
        let some = g(r.items[i]);
        let j = choose|j: int| 0 <= j < some.len() && some[j] == rights[k];
        assert(some[j].proper());
    }
}

/// As `lemma_block_errors_proper`, for what two items hold.
proof fn lemma_inner_errors_proper(
    ir: IrView,
    l: BlockItemInnerView,
    r: BlockItemInnerView,
    level: CheckLevel,
    depth: nat,
)
    ensures
        forall|k: int|
            0 <= k < inner_errors_to(ir, l, r, level, depth).len() ==> (
            #[trigger] inner_errors_to(ir, l, r, level, depth)[k]).proper(),
    decreases depth, 0nat,
{
    let inner = inner_errors_to(ir, l, r, level, depth);
    assert forall|k: int| 0 <= k < inner.len() implies (#[trigger] inner[k]).proper() by {
        match (l, r) {
            (BlockItemInnerView::Block { block: a }, BlockItemInnerView::Block { block: b }) => {
                lemma_block_errors_proper(
                    ir,
                    lookup(ir.blocks, a)->0,
                    lookup(ir.blocks, b)->0,
                    level,
                    (depth - 1) as nat,
                );
                let nested = block_errors_to(
                    ir,
                    lookup(ir.blocks, a)->0,
                    lookup(ir.blocks, b)->0,
                    level,
                    (depth - 1) as nat,
                );
                assert(nested[k].proper());
            },
            (
                BlockItemInnerView::Register { fieldset: f1, .. },
                BlockItemInnerView::Register { fieldset: f2, .. },
            ) => {
                if let (Some(a), Some(b)) = (f1, f2) {
                    lemma_fieldset_errors_proper(
                        lookup(ir.fieldsets, a)->0,
                        lookup(ir.fieldsets, b)->0,
                        level,
                    );
                }
            },
            _ => {},
        }
    }
}

/// As `lemma_block_errors_proper`, for one item of the left side.
proof fn lemma_left_item_errors_proper(
    ir: IrView,
    l: BlockItemView,
    r: Seq<BlockItemView>,
    level: CheckLevel,
    depth: nat,
)
    ensures
        all_block_errors_proper(left_item_errors_to(ir, l, r, level, depth)),
    decreases depth, 1nat,
{
    if let Some(partner) = first(r, at_offset(l.byte_offset)) {
        let inner = inner_errors_to(ir, l.inner, partner.inner, level, depth);
        lemma_inner_errors_proper(ir, l.inner, partner.inner, level, depth);
        let all = item_errors_to(ir, l, partner, level, depth);
        assert forall|k: int| 0 <= k < all.len() implies (#[trigger] all[k]).proper() by {
            let before = all.len() - inner.len();
            if k >= before {
                assert(all[k] == inner[k - before]);
            }
        }
    }
}

} // verus!
