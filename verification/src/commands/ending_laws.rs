//! When a comparison of blocks comes to an end.
use crate::commands::compat::{at_offset, blocks_comparable, blocks_meet, inners_meet, item_meets};
use crate::commands::difference_laws::{is_item_partner, lemma_item_partner_found};
use crate::commands::nesting::lemma_item_deeper;
use crate::ir::{BlockItemInnerView, BlockView, IrView};
use crate::name_map::lookup;
use crate::seqs::first;
use vstd::prelude::*;

verus! {

broadcast use vstd::seq::group_seq_axioms;

/// Whether the comparison of two inner parts finds what it looks up, and ends.
pub open spec fn inners_end(ir: IrView, l: BlockItemInnerView, r: BlockItemInnerView) -> bool {
    match (l, r) {
        (BlockItemInnerView::Block { block: a }, BlockItemInnerView::Block { block: b }) => {
            &&& lookup(ir.blocks, a) is Some
            &&& lookup(ir.blocks, b) is Some
            &&& blocks_comparable(ir, lookup(ir.blocks, a)->0, lookup(ir.blocks, b)->0)
        },
        (
            BlockItemInnerView::Register { fieldset: Some(a), .. },
            BlockItemInnerView::Register { fieldset: Some(b), .. },
        ) => lookup(ir.fieldsets, a) is Some && lookup(ir.fieldsets, b) is Some,
        _ => true,
    }
}

/// Whether the first `n` items of the left side can be compared within `depth`.
spec fn items_meet_to(ir: IrView, l: BlockView, r: BlockView, n: int, depth: nat) -> bool {
    forall|i: int| 0 <= i < n ==> item_meets(ir, #[trigger] l.items[i], r.items, depth)
}

/// Items that can each be compared can be compared within one depth.
proof fn lemma_one_depth(ir: IrView, l: BlockView, r: BlockView, n: int) -> (depth: nat)
    requires
        0 <= n <= l.items.len(),
        forall|i: int, j: int|
            0 <= i < l.items.len() && #[trigger] is_item_partner(l.items[i], r.items, j)
                ==> inners_end(ir, l.items[i].inner, r.items[j].inner),
    ensures
        items_meet_to(ir, l, r, n, depth),
    decreases n,
{
    if n == 0 {
        0
    } else {
        let d = lemma_one_depth(ir, l, r, n - 1);
        let item = l.items[n - 1];
        lemma_item_partner_found(item, r.items);
        let e: nat = match first(r.items, at_offset(item.byte_offset)) {
            None => 0,
            Some(p) => {
                let j = choose|j: int| #[trigger] is_item_partner(item, r.items, j);
                assert(inners_end(ir, item.inner, r.items[j].inner));
                match (item.inner, p.inner) {
                    (
                        BlockItemInnerView::Block { block: a },
                        BlockItemInnerView::Block { block: b },
                    ) => {
                        let (lb, rb) = (lookup(ir.blocks, a)->0, lookup(ir.blocks, b)->0);
                        let k = choose|k: nat| #[trigger] blocks_meet(ir, lb, rb, k);
                        k + 1
                    },
                    _ => 0,
                }
            },
        };
        assert(item_meets(ir, item, r.items, e));
        let depth = d + e;
        lemma_item_deeper(ir, item, r.items, e, depth);
        assert forall|i: int| 0 <= i < n implies item_meets(
            ir,
            #[trigger] l.items[i],
            r.items,
            depth,
        ) by {
            if i < n - 1 {
                lemma_item_deeper(ir, l.items[i], r.items, d, depth);
            }
        }
        depth
    }
}

/// The comparison of two blocks ends exactly where that of each item of the left
/// side with its partner does.
pub proof fn lemma_ends(ir: IrView, l: BlockView, r: BlockView)
    ensures
        blocks_comparable(ir, l, r) <==> (forall|i: int, j: int|
            0 <= i < l.items.len() && #[trigger] is_item_partner(l.items[i], r.items, j)
                ==> inners_end(ir, l.items[i].inner, r.items[j].inner)),
{
    if blocks_comparable(ir, l, r) {
        let d = choose|d: nat| #[trigger] blocks_meet(ir, l, r, d);
        assert forall|i: int, j: int|
            0 <= i < l.items.len() && #[trigger] is_item_partner(
                l.items[i],
                r.items,
                j,
            ) implies inners_end(ir, l.items[i].inner, r.items[j].inner) by {
            lemma_item_partner_found(l.items[i], r.items);
            assert(item_meets(ir, l.items[i], r.items, d));
            assert(inners_meet(ir, l.items[i].inner, r.items[j].inner, d));
            if let (BlockItemInnerView::Block { block: a }, BlockItemInnerView::Block { block: b }) =
                (l.items[i].inner, r.items[j].inner) {
                assert(blocks_meet(
                    ir,
                    lookup(ir.blocks, a)->0,
                    lookup(ir.blocks, b)->0,
                    (d - 1) as nat,
                ));
            }
        }
    }
    if forall|i: int, j: int|
        0 <= i < l.items.len() && #[trigger] is_item_partner(l.items[i], r.items, j)
            ==> inners_end(ir, l.items[i].inner, r.items[j].inner) {
        let d = lemma_one_depth(ir, l, r, l.items.len() as int);
        assert(blocks_meet(ir, l, r, d));
    }
}

/// Whether the comparison of one pair of blocks leads to that of another: the blocks
/// of an item and of its partner.
pub open spec fn leads_on(
    ir: IrView,
    p: (BlockView, BlockView),
    q: (BlockView, BlockView),
) -> bool {
    exists|i: int, j: int|
        0 <= i < p.0.items.len() && #[trigger] is_item_partner(p.0.items[i], p.1.items, j)
            && leads_through(ir, p.0.items[i].inner, p.1.items[j].inner, q)
}

/// Whether two inner parts are these nested blocks.
pub open spec fn leads_through(
    ir: IrView,
    l: BlockItemInnerView,
    r: BlockItemInnerView,
    q: (BlockView, BlockView),
) -> bool {
    match (l, r) {
        (BlockItemInnerView::Block { block: a }, BlockItemInnerView::Block { block: b }) => lookup(
            ir.blocks,
            a,
        ) == Some(q.0) && lookup(ir.blocks, b) == Some(q.1),
        _ => false,
    }
}

/// A comparison that can be made does not lead on without end.
pub proof fn lemma_no_endless_chain(
    ir: IrView,
    chain: spec_fn(nat) -> (BlockView, BlockView),
    at: nat,
)
    requires
        blocks_comparable(ir, chain(at).0, chain(at).1),
    ensures
        exists|n: nat| at <= n && !leads_on(ir, #[trigger] chain(n), chain((n + 1) as nat)),
{
    let d = choose|d: nat| #[trigger] blocks_meet(ir, chain(at).0, chain(at).1, d);
    lemma_chain_ends(ir, chain, at, d);
}

/// As `lemma_no_endless_chain`, by the depth.
proof fn lemma_chain_ends(
    ir: IrView,
    chain: spec_fn(nat) -> (BlockView, BlockView),
    at: nat,
    d: nat,
)
    requires
        blocks_meet(ir, chain(at).0, chain(at).1, d),
    ensures
        exists|n: nat| at <= n && !leads_on(ir, #[trigger] chain(n), chain((n + 1) as nat)),
    decreases d,
{
    let p = chain(at);
    let next = (at + 1) as nat;
    let q = chain(next);
    if leads_on(ir, p, q) {
        let (i, j) = choose|i: int, j: int|
            0 <= i < p.0.items.len() && #[trigger] is_item_partner(p.0.items[i], p.1.items, j)
                && leads_through(ir, p.0.items[i].inner, p.1.items[j].inner, q);
        lemma_item_partner_found(p.0.items[i], p.1.items);
        assert(item_meets(ir, p.0.items[i], p.1.items, d));
        assert(inners_meet(ir, p.0.items[i].inner, p.1.items[j].inner, d));
        lemma_chain_ends(ir, chain, next, (d - 1) as nat);
    }
}

} // verus!
