//! What holds of compatibility as a relation: when a thing is compatible with
//! itself, when the sides can be swapped, that it can be chained, and that a
//! closer check finds no less.
use crate::commands::compat::{
    array_errors, at_offset, block_errors, block_errors_to, blocks_comparable, blocks_meet,
    field_errors, fieldset_errors, from_left_fields, from_left_items, from_right_fields,
    from_right_items, in_place, inner_errors_to, inners_meet, item_meets, left_field_errors,
    left_item_errors_to, lemma_depth_block, right_field_errors, right_item_errors,
};
use crate::commands::nesting::lemma_meet_deeper;
use crate::ir::{
    ArrayView, BlockItemInnerView, BlockItemView, BlockView, FieldSetView, FieldView, IrView,
};
use crate::name_map::lookup;
use crate::seqs::{first, is_first, lemma_first_is_element, lemma_gather_empty, lemma_has_first};
use crate::transform::common::CheckLevel;
use vstd::prelude::*;

verus! {

broadcast use vstd::seq::group_seq_axioms;

/// Whether two arrays have the same length, kind and stride.
pub open spec fn arrays_alike(l: Option<ArrayView>, r: Option<ArrayView>) -> bool {
    match (l, r) {
        (None, None) => true,
        (Some(ArrayView::Regular(a)), Some(ArrayView::Regular(b))) => a == b,
        (Some(ArrayView::Cursed(a)), Some(ArrayView::Cursed(b))) => a.len() == b.len(),
        _ => false,
    }
}

/// Whether two fields say the same, as far as the level looks.
pub open spec fn fields_alike(l: FieldView, r: FieldView, level: CheckLevel) -> bool {
    &&& arrays_alike(l.array, r.array)
    &&& l.enumm == r.enumm
    &&& level.covers(CheckLevel::Names) ==> l.name == r.name
    &&& level.covers(CheckLevel::Descriptions) ==> l.description == r.description
}

/// Whether the first of the fields that takes the bits of `f` is alike.
pub open spec fn field_matched(f: FieldView, fields: Seq<FieldView>, level: CheckLevel) -> bool {
    match first(fields, in_place(f.bit_offset, f.bit_size)) {
        Some(partner) => fields_alike(f, partner, level),
        None => false,
    }
}

/// Two arrays are compatible exactly where they are alike.
pub proof fn lemma_arrays(l: ArrayView, r: ArrayView)
    ensures
        array_errors(l, r).len() == 0 <==> arrays_alike(Some(l), Some(r)),
{
}

/// Two fields of one place are compatible exactly where they are alike; of their
/// names the comparison of the fieldsets takes care.
pub proof fn lemma_fields(l: FieldView, r: FieldView, level: CheckLevel)
    requires
        level.covers(CheckLevel::Names) ==> l.name == r.name,
    ensures
        field_errors(l, r, level).len() == 0 <==> fields_alike(l, r, level),
{
}

/// A field of the left side gives no error exactly where it is matched.
proof fn lemma_left_field(f: FieldView, fields: Seq<FieldView>, level: CheckLevel)
    ensures
        left_field_errors(f, fields, level).len() == 0 <==> field_matched(f, fields, level),
{
    if let Some(partner) = first(fields, in_place(f.bit_offset, f.bit_size)) {
        if level.covers(CheckLevel::Names) && f.name != partner.name {
        } else {
            lemma_fields(f, partner, level);
        }
    }
}

/// Two fieldsets are compatible exactly where they extend the same, have the same
/// size and description, each field of the left side is matched on the right, and
/// each field of the right side takes the bits of one on the left.
pub proof fn lemma_fieldsets(l: FieldSetView, r: FieldSetView, level: CheckLevel)
    ensures
        fieldset_errors(l, r, level).len() == 0 <==> {
            &&& l.extends == r.extends
            &&& l.bit_size == r.bit_size
            &&& level.covers(CheckLevel::Descriptions) ==> l.description == r.description
            &&& forall|i: int|
                0 <= i < l.fields.len() ==> field_matched(#[trigger] l.fields[i], r.fields, level)
            &&& forall|i: int|
                0 <= i < r.fields.len() ==> first(
                    l.fields,
                    in_place((#[trigger] r.fields[i]).bit_offset, r.fields[i].bit_size),
                ) is Some
        },
{
    let f = from_left_fields(r.fields, level);
    let g = from_right_fields(l.fields);
    lemma_gather_empty(l.fields, f);
    lemma_gather_empty(r.fields, g);
    assert forall|i: int| 0 <= i < l.fields.len() implies (f(#[trigger] l.fields[i]).len() == 0
        <==> field_matched(l.fields[i], r.fields, level)) by {
        lemma_left_field(l.fields[i], r.fields, level);
    }
    assert forall|i: int| 0 <= i < r.fields.len() implies (g(#[trigger] r.fields[i]).len() == 0
        <==> first(l.fields, in_place(r.fields[i].bit_offset, r.fields[i].bit_size)) is Some) by {
        assert(g(r.fields[i]) == right_field_errors(r.fields[i], l.fields));
    }
    if forall|i: int| 0 <= i < l.fields.len() ==> f(#[trigger] l.fields[i]).len() == 0 {
        assert forall|i: int| 0 <= i < l.fields.len() implies field_matched(
            #[trigger] l.fields[i],
            r.fields,
            level,
        ) by {
            assert(f(l.fields[i]).len() == 0);
        }
    }
    if forall|i: int| 0 <= i < r.fields.len() ==> g(#[trigger] r.fields[i]).len() == 0 {
        assert forall|i: int| 0 <= i < r.fields.len() implies first(
            l.fields,
            in_place((#[trigger] r.fields[i]).bit_offset, r.fields[i].bit_size),
        ) is Some by {
            assert(g(r.fields[i]).len() == 0);
        }
    }
}

/// A field has a first partner among fields that hold one of its place.
proof fn lemma_partner(f: FieldView, fields: Seq<FieldView>, i: int) -> (k: int)
    requires
        0 <= i < fields.len(),
        fields[i].bit_offset == f.bit_offset,
        fields[i].bit_size == f.bit_size,
    ensures
        0 <= k < fields.len(),
        first(fields, in_place(f.bit_offset, f.bit_size)) == Some(fields[k]),
        fields[k].bit_offset == f.bit_offset,
        fields[k].bit_size == f.bit_size,
{
    let p = in_place(f.bit_offset, f.bit_size);
    lemma_has_first(fields, p, i);
    lemma_first_is_element(fields, p);
    choose|k: int| #[trigger] is_first(fields, p, k) && fields[k] == first(fields, p)->0
}

/// A first partner is one of the fields.
proof fn lemma_partner_at(f: FieldView, fields: Seq<FieldView>) -> (k: int)
    requires
        first(fields, in_place(f.bit_offset, f.bit_size)) is Some,
    ensures
        0 <= k < fields.len(),
        first(fields, in_place(f.bit_offset, f.bit_size)) == Some(fields[k]),
        fields[k].bit_offset == f.bit_offset,
        fields[k].bit_size == f.bit_size,
{
    let p = in_place(f.bit_offset, f.bit_size);
    lemma_first_is_element(fields, p);
    choose|k: int| #[trigger] is_first(fields, p, k) && fields[k] == first(fields, p)->0
}

/// A fieldset is compatible with itself exactly where each of its fields is like
/// the first one that takes the same bits.
pub proof fn lemma_fieldset_with_itself(s: FieldSetView, level: CheckLevel)
    ensures
        fieldset_errors(s, s, level).len() == 0 <==> (forall|i: int|
            0 <= i < s.fields.len() ==> field_matched(#[trigger] s.fields[i], s.fields, level)),
{
    lemma_fieldsets(s, s, level);
    assert forall|i: int| 0 <= i < s.fields.len() implies first(
        s.fields,
        in_place((#[trigger] s.fields[i]).bit_offset, s.fields[i].bit_size),
    ) is Some by {
        let k = lemma_partner(s.fields[i], s.fields, i);
    }
}

/// A fieldset whose fields all take different bits is compatible with itself.
pub proof fn lemma_fieldset_reflexive(s: FieldSetView, level: CheckLevel)
    requires
        fieldset_is_tidy(s),
    ensures
        fieldset_errors(s, s, level).len() == 0,
{
    lemma_fieldset_with_itself(s, level);
    assert forall|i: int| 0 <= i < s.fields.len() implies field_matched(
        #[trigger] s.fields[i],
        s.fields,
        level,
    ) by {
        let k = lemma_partner(s.fields[i], s.fields, i);
        assert(s.fields[k] == s.fields[i]);
    }
}

/// Compatibility of fieldsets can be chained.
pub proof fn lemma_fieldset_transitive(
    a: FieldSetView,
    b: FieldSetView,
    c: FieldSetView,
    level: CheckLevel,
)
    requires
        fieldset_errors(a, b, level).len() == 0,
        fieldset_errors(b, c, level).len() == 0,
    ensures
        fieldset_errors(a, c, level).len() == 0,
{
    lemma_fieldsets(a, b, level);
    lemma_fieldsets(b, c, level);
    lemma_fieldsets(a, c, level);
    assert forall|i: int| 0 <= i < a.fields.len() implies field_matched(
        #[trigger] a.fields[i],
        c.fields,
        level,
    ) by {
        let f = a.fields[i];
        assert(field_matched(f, b.fields, level));
        let k = lemma_partner_at(f, b.fields);
        assert(field_matched(b.fields[k], c.fields, level));
    }
    assert forall|i: int| 0 <= i < c.fields.len() implies first(
        a.fields,
        in_place((#[trigger] c.fields[i]).bit_offset, c.fields[i].bit_size),
    ) is Some by {
        let f = c.fields[i];
        assert(first(b.fields, in_place(f.bit_offset, f.bit_size)) is Some);
        let k = lemma_partner_at(f, b.fields);
        assert(first(
            a.fields,
            in_place(b.fields[k].bit_offset, b.fields[k].bit_size),
        ) is Some);
    }
}

/// The sides of compatible fieldsets can be swapped exactly where the right one is
/// compatible with itself.
pub proof fn lemma_fieldset_symmetric(l: FieldSetView, r: FieldSetView, level: CheckLevel)
    requires
        fieldset_errors(l, r, level).len() == 0,
    ensures
        fieldset_errors(r, l, level).len() == 0 <==> fieldset_errors(r, r, level).len() == 0,
{
    if fieldset_errors(r, l, level).len() == 0 {
        lemma_fieldset_transitive(r, l, r, level);
    }
    if fieldset_errors(r, r, level).len() == 0 {
        lemma_fieldsets(l, r, level);
        lemma_fieldsets(r, r, level);
        lemma_fieldsets(r, l, level);
        assert forall|i: int| 0 <= i < r.fields.len() implies field_matched(
            #[trigger] r.fields[i],
            l.fields,
            level,
        ) by {
            let f = r.fields[i];
            assert(field_matched(f, r.fields, level));
            assert(first(l.fields, in_place(f.bit_offset, f.bit_size)) is Some);
            let k = lemma_partner_at(f, l.fields);
            assert(field_matched(l.fields[k], r.fields, level));
        }
        assert forall|i: int| 0 <= i < l.fields.len() implies first(
            r.fields,
            in_place((#[trigger] l.fields[i]).bit_offset, l.fields[i].bit_size),
        ) is Some by {
            assert(field_matched(l.fields[i], r.fields, level));
        }
    }
}

/// Fieldsets that a closer check finds compatible are so for a looser one.
pub proof fn lemma_fieldset_looser(
    l: FieldSetView,
    r: FieldSetView,
    closer: CheckLevel,
    looser: CheckLevel,
)
    requires
        closer.covers(looser),
        fieldset_errors(l, r, closer).len() == 0,
    ensures
        fieldset_errors(l, r, looser).len() == 0,
{
    lemma_fieldsets(l, r, closer);
    lemma_fieldsets(l, r, looser);
    assert forall|i: int| 0 <= i < l.fields.len() implies field_matched(
        #[trigger] l.fields[i],
        r.fields,
        looser,
    ) by {
        assert(field_matched(l.fields[i], r.fields, closer));
    }
}

/// Whether the inner parts of two items can be compared within `depth` levels and
/// do not differ.
pub open spec fn inners_agree(
    ir: IrView,
    l: BlockItemInnerView,
    r: BlockItemInnerView,
    level: CheckLevel,
    depth: nat,
) -> bool {
    inners_meet(ir, l, r, depth) && inner_errors_to(ir, l, r, level, depth).len() == 0
}

/// Whether two blocks can be compared within `depth` levels and do not differ.
pub open spec fn blocks_agree(
    ir: IrView,
    l: BlockView,
    r: BlockView,
    level: CheckLevel,
    depth: nat,
) -> bool {
    blocks_meet(ir, l, r, depth) && block_errors_to(ir, l, r, level, depth).len() == 0
}

/// Whether two blocks can be compared and are compatible.
pub open spec fn blocks_compatible(
    ir: IrView,
    l: BlockView,
    r: BlockView,
    level: CheckLevel,
) -> bool {
    blocks_comparable(ir, l, r) && block_errors(ir, l, r, level).len() == 0
}

/// Whether two items say the same, as far as the level looks.
pub open spec fn items_alike(
    ir: IrView,
    l: BlockItemView,
    r: BlockItemView,
    level: CheckLevel,
    depth: nat,
) -> bool {
    &&& arrays_alike(l.array, r.array)
    &&& level.covers(CheckLevel::Names) ==> l.name == r.name
    &&& level.covers(CheckLevel::Descriptions) ==> l.description == r.description
    &&& inners_agree(ir, l.inner, r.inner, level, depth)
}

/// Whether the first of the items at the offset of `i` is alike.
pub open spec fn item_matched(
    ir: IrView,
    i: BlockItemView,
    items: Seq<BlockItemView>,
    level: CheckLevel,
    depth: nat,
) -> bool {
    match first(items, at_offset(i.byte_offset)) {
        Some(partner) => items_alike(ir, i, partner, level, depth),
        None => false,
    }
}

/// What the inner parts of two items agree in.
proof fn lemma_inners(
    ir: IrView,
    l: BlockItemInnerView,
    r: BlockItemInnerView,
    level: CheckLevel,
    depth: nat,
)
    ensures
        inners_agree(ir, l, r, level, depth) <==> match (l, r) {
            (BlockItemInnerView::Block { block: a }, BlockItemInnerView::Block { block: b }) => {
                &&& lookup(ir.blocks, a) is Some
                &&& lookup(ir.blocks, b) is Some
                &&& depth > 0
                &&& blocks_agree(
                    ir,
                    lookup(ir.blocks, a)->0,
                    lookup(ir.blocks, b)->0,
                    level,
                    (depth - 1) as nat,
                )
            },
            (
                BlockItemInnerView::Register { access: a1, bit_size: s1, fieldset: f1 },
                BlockItemInnerView::Register { access: a2, bit_size: s2, fieldset: f2 },
            ) => {
                &&& a1 == a2
                &&& s1 == s2
                &&& match (f1, f2) {
                    (Some(a), Some(b)) => {
                        &&& lookup(ir.fieldsets, a) is Some
                        &&& lookup(ir.fieldsets, b) is Some
                        &&& fieldset_errors(
                            lookup(ir.fieldsets, a)->0,
                            lookup(ir.fieldsets, b)->0,
                            level,
                        ).len() == 0
                    },
                    (None, None) => true,
                    _ => false,
                }
            },
            _ => false,
        },
{
}

/// An item of the left side can be compared and gives no error exactly where it is
/// matched.
proof fn lemma_left_item(
    ir: IrView,
    i: BlockItemView,
    items: Seq<BlockItemView>,
    level: CheckLevel,
    depth: nat,
)
    ensures
        item_meets(ir, i, items, depth) && left_item_errors_to(ir, i, items, level, depth).len()
            == 0 <==> item_matched(ir, i, items, level, depth),
{
    if let Some(partner) = first(items, at_offset(i.byte_offset)) {
        if let (Some(a), Some(b)) = (i.array, partner.array) {
            lemma_arrays(a, b);
        }
    }
}

/// Two blocks agree exactly where they extend the same, have the same description,
/// each item of the left side is matched on the right, and each item of the right
/// side stands at the offset of one on the left.
pub proof fn lemma_blocks(
    ir: IrView,
    l: BlockView,
    r: BlockView,
    level: CheckLevel,
    depth: nat,
)
    ensures
        blocks_agree(ir, l, r, level, depth) <==> {
            &&& l.extends == r.extends
            &&& level.covers(CheckLevel::Descriptions) ==> l.description == r.description
            &&& forall|i: int|
                0 <= i < l.items.len() ==> item_matched(
                    ir,
                    #[trigger] l.items[i],
                    r.items,
                    level,
                    depth,
                )
            &&& forall|i: int|
                0 <= i < r.items.len() ==> first(
                    l.items,
                    at_offset((#[trigger] r.items[i]).byte_offset),
                ) is Some
        },
{
    let f = from_left_items(ir, r.items, level, depth);
    let g = from_right_items(l.items);
    lemma_gather_empty(l.items, f);
    lemma_gather_empty(r.items, g);
    assert forall|i: int| 0 <= i < l.items.len() implies (item_meets(
        ir,
        #[trigger] l.items[i],
        r.items,
        depth,
    ) && f(l.items[i]).len() == 0 <==> item_matched(ir, l.items[i], r.items, level, depth)) by {
        lemma_left_item(ir, l.items[i], r.items, level, depth);
    }
    assert forall|i: int| 0 <= i < r.items.len() implies (g(#[trigger] r.items[i]).len() == 0
        <==> first(l.items, at_offset(r.items[i].byte_offset)) is Some) by {
        assert(g(r.items[i]) == right_item_errors(r.items[i], l.items));
    }
    if blocks_agree(ir, l, r, level, depth) {
        assert forall|i: int| 0 <= i < l.items.len() implies item_matched(
            ir,
            #[trigger] l.items[i],
            r.items,
            level,
            depth,
        ) by {
            assert(item_meets(ir, l.items[i], r.items, depth));
            assert(f(l.items[i]).len() == 0);
        }
        assert forall|i: int| 0 <= i < r.items.len() implies first(
            l.items,
            at_offset((#[trigger] r.items[i]).byte_offset),
        ) is Some by {
            assert(g(r.items[i]).len() == 0);
        }
    }
}

/// Agreement does not end where nested blocks are followed further down.
proof fn lemma_agree_deeper(
    ir: IrView,
    l: BlockView,
    r: BlockView,
    level: CheckLevel,
    d: nat,
    e: nat,
)
    requires
        blocks_agree(ir, l, r, level, d),
        d <= e,
    ensures
        blocks_agree(ir, l, r, level, e),
{
    lemma_meet_deeper(ir, l, r, d, e);
    lemma_depth_block(ir, l, r, level, d, e);
}

/// Blocks are compatible exactly where they agree within some depth.
proof fn lemma_compatible(ir: IrView, l: BlockView, r: BlockView, level: CheckLevel)
    ensures
        blocks_compatible(ir, l, r, level) <==> exists|d: nat| #[trigger]
            blocks_agree(ir, l, r, level, d),
{
    let chosen = choose|depth: nat| #[trigger] blocks_meet(ir, l, r, depth);
    if blocks_compatible(ir, l, r, level) {
        assert(blocks_agree(ir, l, r, level, chosen));
    }
    if exists|d: nat| #[trigger] blocks_agree(ir, l, r, level, d) {
        let d = choose|d: nat| #[trigger] blocks_agree(ir, l, r, level, d);
        assert(blocks_meet(ir, l, r, d));
        lemma_depth_block(ir, l, r, level, d, chosen);
    }
}

/// An item has a first partner among items that hold one at its offset.
proof fn lemma_item_partner(i: BlockItemView, items: Seq<BlockItemView>, at: int)
    requires
        0 <= at < items.len(),
        items[at].byte_offset == i.byte_offset,
    ensures
        first(items, at_offset(i.byte_offset)) is Some,
{
    lemma_has_first(items, at_offset(i.byte_offset), at);
}

/// A first partner is one of the items.
proof fn lemma_item_partner_at(byte_offset: u32, items: Seq<BlockItemView>) -> (k: int)
    requires
        first(items, at_offset(byte_offset)) is Some,
    ensures
        0 <= k < items.len(),
        first(items, at_offset(byte_offset)) == Some(items[k]),
        items[k].byte_offset == byte_offset,
{
    let p = at_offset(byte_offset);
    lemma_first_is_element(items, p);
    choose|k: int| #[trigger] is_first(items, p, k) && items[k] == first(items, p)->0
}

/// Agreement of inner parts can be chained.
proof fn lemma_inners_transitive(
    ir: IrView,
    a: BlockItemInnerView,
    b: BlockItemInnerView,
    c: BlockItemInnerView,
    level: CheckLevel,
    depth: nat,
)
    requires
        inners_agree(ir, a, b, level, depth),
        inners_agree(ir, b, c, level, depth),
    ensures
        inners_agree(ir, a, c, level, depth),
    decreases depth, 0nat,
{
    lemma_inners(ir, a, b, level, depth);
    lemma_inners(ir, b, c, level, depth);
    lemma_inners(ir, a, c, level, depth);
    match (a, b, c) {
        (
            BlockItemInnerView::Block { block: x },
            BlockItemInnerView::Block { block: y },
            BlockItemInnerView::Block { block: z },
        ) => {
            lemma_blocks_transitive(
                ir,
                lookup(ir.blocks, x)->0,
                lookup(ir.blocks, y)->0,
                lookup(ir.blocks, z)->0,
                level,
                (depth - 1) as nat,
            );
        },
        (
            BlockItemInnerView::Register { fieldset: f1, .. },
            BlockItemInnerView::Register { fieldset: f2, .. },
            BlockItemInnerView::Register { fieldset: f3, .. },
        ) => {
            if let (Some(x), Some(y), Some(z)) = (f1, f2, f3) {
                lemma_fieldset_transitive(
                    lookup(ir.fieldsets, x)->0,
                    lookup(ir.fieldsets, y)->0,
                    lookup(ir.fieldsets, z)->0,
                    level,
                );
            }
        },
        _ => {},
    }
}

/// Agreement of blocks can be chained.
proof fn lemma_blocks_transitive(
    ir: IrView,
    a: BlockView,
    b: BlockView,
    c: BlockView,
    level: CheckLevel,
    depth: nat,
)
    requires
        blocks_agree(ir, a, b, level, depth),
        blocks_agree(ir, b, c, level, depth),
    ensures
        blocks_agree(ir, a, c, level, depth),
    decreases depth, 1nat,
{
    lemma_blocks(ir, a, b, level, depth);
    lemma_blocks(ir, b, c, level, depth);
    lemma_blocks(ir, a, c, level, depth);
    assert forall|i: int| 0 <= i < a.items.len() implies item_matched(
        ir,
        #[trigger] a.items[i],
        c.items,
        level,
        depth,
    ) by {
        let item = a.items[i];
        assert(item_matched(ir, item, b.items, level, depth));
        let k = lemma_item_partner_at(item.byte_offset, b.items);
        assert(item_matched(ir, b.items[k], c.items, level, depth));
        let m = lemma_item_partner_at(item.byte_offset, c.items);
        lemma_inners_transitive(
            ir,
            item.inner,
            b.items[k].inner,
            c.items[m].inner,
            level,
            depth,
        );
    }
    assert forall|i: int| 0 <= i < c.items.len() implies first(
        a.items,
        at_offset((#[trigger] c.items[i]).byte_offset),
    ) is Some by {
        let offset = c.items[i].byte_offset;
        assert(first(b.items, at_offset(offset)) is Some);
        let k = lemma_item_partner_at(offset, b.items);
        assert(first(a.items, at_offset(b.items[k].byte_offset)) is Some);
    }
}

/// Inner parts that agree do so the other way round, if the right one agrees with
/// itself.
proof fn lemma_inners_swapped(
    ir: IrView,
    l: BlockItemInnerView,
    r: BlockItemInnerView,
    level: CheckLevel,
    depth: nat,
)
    requires
        inners_agree(ir, l, r, level, depth),
        inners_agree(ir, r, r, level, depth),
    ensures
        inners_agree(ir, r, l, level, depth),
    decreases depth, 0nat,
{
    lemma_inners(ir, l, r, level, depth);
    lemma_inners(ir, r, r, level, depth);
    lemma_inners(ir, r, l, level, depth);
    match (l, r) {
        (BlockItemInnerView::Block { block: x }, BlockItemInnerView::Block { block: y }) => {
            lemma_blocks_swapped(
                ir,
                lookup(ir.blocks, x)->0,
                lookup(ir.blocks, y)->0,
                level,
                (depth - 1) as nat,
            );
        },
        (
            BlockItemInnerView::Register { fieldset: f1, .. },
            BlockItemInnerView::Register { fieldset: f2, .. },
        ) => {
            if let (Some(x), Some(y)) = (f1, f2) {
                lemma_fieldset_symmetric(
                    lookup(ir.fieldsets, x)->0,
                    lookup(ir.fieldsets, y)->0,
                    level,
                );
            }
        },
        _ => {},
    }
}

/// Blocks that agree do so the other way round, if the right one agrees with
/// itself.
proof fn lemma_blocks_swapped(
    ir: IrView,
    l: BlockView,
    r: BlockView,
    level: CheckLevel,
    depth: nat,
)
    requires
        blocks_agree(ir, l, r, level, depth),
        blocks_agree(ir, r, r, level, depth),
    ensures
        blocks_agree(ir, r, l, level, depth),
    decreases depth, 1nat,
{
    lemma_blocks(ir, l, r, level, depth);
    lemma_blocks(ir, r, r, level, depth);
    lemma_blocks(ir, r, l, level, depth);
    assert forall|i: int| 0 <= i < r.items.len() implies item_matched(
        ir,
        #[trigger] r.items[i],
        l.items,
        level,
        depth,
    ) by {
        let item = r.items[i];
        assert(item_matched(ir, item, r.items, level, depth));
        let k = lemma_item_partner_at(item.byte_offset, r.items);
        assert(item_matched(ir, r.items[k], r.items, level, depth));
        assert(first(l.items, at_offset(item.byte_offset)) is Some);
        let m = lemma_item_partner_at(item.byte_offset, l.items);
        assert(item_matched(ir, l.items[m], r.items, level, depth));
        lemma_inners_swapped(ir, l.items[m].inner, r.items[k].inner, level, depth);
        lemma_inners_transitive(
            ir,
            item.inner,
            r.items[k].inner,
            l.items[m].inner,
            level,
            depth,
        );
    }
    assert forall|i: int| 0 <= i < l.items.len() implies first(
        r.items,
        at_offset((#[trigger] l.items[i]).byte_offset),
    ) is Some by {
        assert(item_matched(ir, l.items[i], r.items, level, depth));
    }
}

/// Inner parts that agree for a closer check do so for a looser one.
proof fn lemma_inners_looser(
    ir: IrView,
    l: BlockItemInnerView,
    r: BlockItemInnerView,
    closer: CheckLevel,
    looser: CheckLevel,
    depth: nat,
)
    requires
        closer.covers(looser),
        inners_agree(ir, l, r, closer, depth),
    ensures
        inners_agree(ir, l, r, looser, depth),
    decreases depth, 0nat,
{
    lemma_inners(ir, l, r, closer, depth);
    lemma_inners(ir, l, r, looser, depth);
    match (l, r) {
        (BlockItemInnerView::Block { block: x }, BlockItemInnerView::Block { block: y }) => {
            lemma_blocks_looser(
                ir,
                lookup(ir.blocks, x)->0,
                lookup(ir.blocks, y)->0,
                closer,
                looser,
                (depth - 1) as nat,
            );
        },
        (
            BlockItemInnerView::Register { fieldset: f1, .. },
            BlockItemInnerView::Register { fieldset: f2, .. },
        ) => {
            if let (Some(x), Some(y)) = (f1, f2) {
                lemma_fieldset_looser(
                    lookup(ir.fieldsets, x)->0,
                    lookup(ir.fieldsets, y)->0,
                    closer,
                    looser,
                );
            }
        },
        _ => {},
    }
}

/// Blocks that agree for a closer check do so for a looser one.
proof fn lemma_blocks_looser(
    ir: IrView,
    l: BlockView,
    r: BlockView,
    closer: CheckLevel,
    looser: CheckLevel,
    depth: nat,
)
    requires
        closer.covers(looser),
        blocks_agree(ir, l, r, closer, depth),
    ensures
        blocks_agree(ir, l, r, looser, depth),
    decreases depth, 1nat,
{
    lemma_blocks(ir, l, r, closer, depth);
    lemma_blocks(ir, l, r, looser, depth);
    assert forall|i: int| 0 <= i < l.items.len() implies item_matched(
        ir,
        #[trigger] l.items[i],
        r.items,
        looser,
        depth,
    ) by {
        assert(item_matched(ir, l.items[i], r.items, closer, depth));
        let k = lemma_item_partner_at(l.items[i].byte_offset, r.items);
        lemma_inners_looser(
            ir,
            l.items[i].inner,
            r.items[k].inner,
            closer,
            looser,
            depth,
        );
    }
}

/// Compatibility of blocks can be chained.
pub proof fn lemma_block_transitive(
    ir: IrView,
    a: BlockView,
    b: BlockView,
    c: BlockView,
    level: CheckLevel,
)
    requires
        blocks_compatible(ir, a, b, level),
        blocks_compatible(ir, b, c, level),
    ensures
        blocks_compatible(ir, a, c, level),
{
    lemma_compatible(ir, a, b, level);
    lemma_compatible(ir, b, c, level);
    lemma_compatible(ir, a, c, level);
    let d = choose|d: nat| #[trigger] blocks_agree(ir, a, b, level, d);
    let e = choose|e: nat| #[trigger] blocks_agree(ir, b, c, level, e);
    lemma_agree_deeper(ir, a, b, level, d, d + e);
    lemma_agree_deeper(ir, b, c, level, e, d + e);
    lemma_blocks_transitive(ir, a, b, c, level, d + e);
}

/// The sides of compatible blocks can be swapped exactly where the right one is
/// compatible with itself.
pub proof fn lemma_block_symmetric(ir: IrView, l: BlockView, r: BlockView, level: CheckLevel)
    requires
        blocks_compatible(ir, l, r, level),
    ensures
        blocks_compatible(ir, r, l, level) <==> blocks_compatible(ir, r, r, level),
{
    if blocks_compatible(ir, r, l, level) {
        lemma_block_transitive(ir, r, l, r, level);
    }
    if blocks_compatible(ir, r, r, level) {
        lemma_compatible(ir, l, r, level);
        lemma_compatible(ir, r, r, level);
        lemma_compatible(ir, r, l, level);
        let d = choose|d: nat| #[trigger] blocks_agree(ir, l, r, level, d);
        let e = choose|e: nat| #[trigger] blocks_agree(ir, r, r, level, e);
        lemma_agree_deeper(ir, l, r, level, d, d + e);
        lemma_agree_deeper(ir, r, r, level, e, d + e);
        lemma_blocks_swapped(ir, l, r, level, d + e);
    }
}

/// Blocks that a closer check finds compatible are so for a looser one.
pub proof fn lemma_block_looser(
    ir: IrView,
    l: BlockView,
    r: BlockView,
    closer: CheckLevel,
    looser: CheckLevel,
)
    requires
        closer.covers(looser),
        blocks_compatible(ir, l, r, closer),
    ensures
        blocks_compatible(ir, l, r, looser),
{
    lemma_compatible(ir, l, r, closer);
    lemma_compatible(ir, l, r, looser);
    let d = choose|d: nat| #[trigger] blocks_agree(ir, l, r, closer, d);
    lemma_blocks_looser(ir, l, r, closer, looser, d);
}

/// A block can be compared with itself and is compatible with itself exactly where
/// each of its items is like the first one at the same offset.
pub proof fn lemma_block_with_itself(ir: IrView, b: BlockView, level: CheckLevel, depth: nat)
    ensures
        blocks_agree(ir, b, b, level, depth) <==> (forall|i: int|
            0 <= i < b.items.len() ==> item_matched(
                ir,
                #[trigger] b.items[i],
                b.items,
                level,
                depth,
            )),
{
    lemma_blocks(ir, b, b, level, depth);
    assert forall|i: int| 0 <= i < b.items.len() implies first(
        b.items,
        at_offset((#[trigger] b.items[i]).byte_offset),
    ) is Some by {
        lemma_item_partner(b.items[i], b.items, i);
    }
}

/// Whether the fields of a fieldset all take different bits.
pub open spec fn fieldset_is_tidy(s: FieldSetView) -> bool {
    forall|i: int, j: int|
        0 <= i < j < s.fields.len() ==> (#[trigger] s.fields[i]).bit_offset != (
        #[trigger] s.fields[j]).bit_offset || s.fields[i].bit_size != s.fields[j].bit_size
}

/// Whether what an item refers to is there and tidy, down to `depth` levels.
pub open spec fn inner_is_tidy(ir: IrView, inner: BlockItemInnerView, depth: nat) -> bool
    decreases depth, 0nat,
{
    match inner {
        BlockItemInnerView::Block { block } => {
            &&& lookup(ir.blocks, block) is Some
            &&& depth > 0
            &&& block_is_tidy(ir, lookup(ir.blocks, block)->0, (depth - 1) as nat)
        },
        BlockItemInnerView::Register { fieldset: Some(f), .. } => {
            lookup(ir.fieldsets, f) is Some && fieldset_is_tidy(lookup(ir.fieldsets, f)->0)
        },
        BlockItemInnerView::Register { fieldset: None, .. } => true,
    }
}

/// Whether the items of a block all stand at different offsets and what they refer
/// to is there and tidy, nested blocks ending within `depth` levels.
pub open spec fn block_is_tidy(ir: IrView, b: BlockView, depth: nat) -> bool
    decreases depth, 1nat,
{
    &&& forall|i: int, j: int|
        0 <= i < j < b.items.len() ==> (#[trigger] b.items[i]).byte_offset != (
        #[trigger] b.items[j]).byte_offset
    &&& forall|i: int|
        0 <= i < b.items.len() ==> inner_is_tidy(ir, (#[trigger] b.items[i]).inner, depth)
}

/// An inner part that is tidy agrees with itself.
proof fn lemma_tidy_inner(ir: IrView, inner: BlockItemInnerView, level: CheckLevel, depth: nat)
    requires
        inner_is_tidy(ir, inner, depth),
    ensures
        inners_agree(ir, inner, inner, level, depth),
    decreases depth, 0nat,
{
    lemma_inners(ir, inner, inner, level, depth);
    match inner {
        BlockItemInnerView::Block { block } => {
            lemma_tidy_block(ir, lookup(ir.blocks, block)->0, level, (depth - 1) as nat);
        },
        BlockItemInnerView::Register { fieldset: Some(f), .. } => {
            lemma_fieldset_reflexive(lookup(ir.fieldsets, f)->0, level);
        },
        BlockItemInnerView::Register { fieldset: None, .. } => {},
    }
}

/// A block that is tidy agrees with itself.
proof fn lemma_tidy_block(ir: IrView, b: BlockView, level: CheckLevel, depth: nat)
    requires
        block_is_tidy(ir, b, depth),
    ensures
        blocks_agree(ir, b, b, level, depth),
    decreases depth, 1nat,
{
    lemma_block_with_itself(ir, b, level, depth);
    assert forall|i: int| 0 <= i < b.items.len() implies item_matched(
        ir,
        #[trigger] b.items[i],
        b.items,
        level,
        depth,
    ) by {
        lemma_item_partner(b.items[i], b.items, i);
        let k = lemma_item_partner_at(b.items[i].byte_offset, b.items);
        assert(k == i);
        lemma_tidy_inner(ir, b.items[i].inner, level, depth);
    }
}

/// A block is compatible with itself where its items all stand at different
/// offsets, the fields of its registers take different bits, everything that it
/// refers to is there, and the same holds of the blocks nested in it.
pub proof fn lemma_block_reflexive(ir: IrView, b: BlockView, level: CheckLevel, depth: nat)
    requires
        block_is_tidy(ir, b, depth),
    ensures
        blocks_compatible(ir, b, b, level),
{
    lemma_tidy_block(ir, b, level, depth);
    lemma_compatible(ir, b, b, level);
}

} // verus!
