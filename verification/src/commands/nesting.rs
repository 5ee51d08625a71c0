//! Whether the comparison of two blocks comes to an end: every block and
//! fieldset that it looks up is there, and no block is nested in itself on both
//! sides at once.
use crate::commands::compat::{
    at_offset, blocks_comparable, blocks_meet, find_item, inners_meet, item_meets, items_comparable,
};
use crate::ir::{
    Block, BlockItem, BlockItemInner, BlockItemInnerView, BlockItemView, BlockView, Duplicate,
    IrView, IR,
};
use crate::name_map::{lemma_entry_unique, lookup};
use crate::seqs::{first, is_first, lemma_first};
use vstd::prelude::*;

verus! {

broadcast use vstd::seq::group_seq_axioms;

/// More depth does no harm.
pub proof fn lemma_meet_deeper(ir: IrView, l: BlockView, r: BlockView, d: nat, e: nat)
    requires
        blocks_meet(ir, l, r, d),
        d <= e,
    ensures
        blocks_meet(ir, l, r, e),
    decreases d, 1nat,
{
    assert forall|i: int| 0 <= i < l.items.len() implies item_meets(
        ir,
        #[trigger] l.items[i],
        r.items,
        e,
    ) by {
        assert(item_meets(ir, l.items[i], r.items, d));
        lemma_item_deeper(ir, l.items[i], r.items, d, e);
    }
}

/// As `lemma_meet_deeper`, for an item.
pub proof fn lemma_item_deeper(
    ir: IrView,
    l: BlockItemView,
    r: Seq<BlockItemView>,
    d: nat,
    e: nat,
)
    requires
        item_meets(ir, l, r, d),
        d <= e,
    ensures
        item_meets(ir, l, r, e),
    decreases d, 0nat,
{
    if let Some(partner) = first(r, at_offset(l.byte_offset)) {
        if let (BlockItemInnerView::Block { block: a }, BlockItemInnerView::Block { block: b }) = (
            l.inner,
            partner.inner,
        ) {
            lemma_meet_deeper(
                ir,
                lookup(ir.blocks, a)->0,
                lookup(ir.blocks, b)->0,
                (d - 1) as nat,
                (e - 1) as nat,
            );
        }
    }
}

/// Whether the blocks of that pair of places can be compared within `depth`
/// levels.
spec fn pair_meets(ir: IrView, pair: (usize, usize), depth: nat) -> bool {
    blocks_meet(ir, ir.blocks[pair.0 as int].1, ir.blocks[pair.1 as int].1, depth)
}

/// Whether a comparison of the pair leads to a comparison of `l` and `r` that is
/// no deeper.
spec fn leads_to(ir: IrView, pair: (usize, usize), l: BlockView, r: BlockView) -> bool {
    forall|d: nat| #[trigger]
        pair_meets(ir, pair, d) ==> exists|e: nat| e <= d && #[trigger] blocks_meet(ir, l, r, e)
}

/// A comparison that would have to be shorter than itself does not end.
proof fn lemma_circle(ir: IrView, l: BlockView, r: BlockView, pair: (usize, usize), d: nat)
    requires
        forall|k: nat| #[trigger]
            blocks_meet(ir, l, r, k) ==> k > 0 && pair_meets(ir, pair, (k - 1) as nat),
        leads_to(ir, pair, l, r),
    ensures
        !blocks_meet(ir, l, r, d),
    decreases d,
{
    if blocks_meet(ir, l, r, d) {
        assert(pair_meets(ir, pair, (d - 1) as nat));
        let e = choose|e: nat| e <= d - 1 && #[trigger] blocks_meet(ir, l, r, e);
        lemma_circle(ir, l, r, pair, e);
    }
}

/// There are no more than `n * n` different pairs of numbers below `n`.
proof fn lemma_pairs_bounded(s: Seq<(usize, usize)>, n: nat)
    requires
        s.no_duplicates(),
        forall|i: int| 0 <= i < s.len() ==> (#[trigger] s[i]).0 < n && s[i].1 < n,
    ensures
        s.len() <= n * n,
{
    let t = s.map_values(|p: (usize, usize)| p.0 * n + p.1);
    assert forall|i: int| 0 <= i < s.len() implies 0 <= #[trigger] t[i] < n * n by {
        let (a, b) = (s[i].0 as int, s[i].1 as int);
        assert(s[i].0 < n && s[i].1 < n);
        assert(0 <= a * n + b < n * n) by (nonlinear_arith)
            requires
                0 <= a < n,
                0 <= b < n,
        ;
    }
    assert forall|i: int, j: int| 0 <= i < t.len() && 0 <= j < t.len() && i != j implies t[i]
        != t[j] by {
        if t[i] == t[j] {
            vstd::arithmetic::div_mod::lemma_fundamental_div_mod_converse(
                t[i],
                n as int,
                s[i].0 as int,
                s[i].1 as int,
            );
            vstd::arithmetic::div_mod::lemma_fundamental_div_mod_converse(
                t[j],
                n as int,
                s[j].0 as int,
                s[j].1 as int,
            );
            assert(s[i] == s[j]);
        }
    }
    t.unique_seq_to_set();
    vstd::arithmetic::mul::lemma_mul_nonnegative(n as int, n as int);
    vstd::set_lib::lemma_int_range(0, (n * n) as int);
    assert(t.to_set().subset_of(vstd::set_lib::set_int_range(0, (n * n) as int)));
    vstd::set_lib::lemma_len_subset(
        t.to_set(),
        vstd::set_lib::set_int_range(0, (n * n) as int),
    );
}

/// Whether the pair is on the path.
fn on_path(path: &Vec<(usize, usize)>, pair: (usize, usize)) -> (r: Option<usize>)
    ensures
        match r {
            Some(i) => i < path@.len() && path@[i as int] == pair,
            None => !path@.contains(pair),
        },
{
    let mut i: usize = 0;
    while i < path.len()
        invariant
            i <= path@.len(),
            forall|j: int| 0 <= j < i ==> path@[j] != pair,
        decreases path@.len() - i,
    {
        if path[i].0 == pair.0 && path[i].1 == pair.1 {
            return Some(i);
        }
        i += 1;
    }
    None
}

/// Whether the two blocks can be compared. The path holds the pairs of blocks
/// whose comparison has led here.
fn can_compare_from(ir: &IR, left: &Block, right: &Block, path: &mut Vec<(usize, usize)>) -> (r:
    bool)
    requires
        old(path)@.no_duplicates(),
        forall|j: int|
            0 <= j < old(path)@.len() ==> (#[trigger] old(path)@[j]).0 < ir@.blocks.len()
                && old(path)@[j].1 < ir@.blocks.len() && leads_to(
                ir@,
                old(path)@[j],
                left@,
                right@,
            ),
    ensures
        final(path)@ == old(path)@,
        r == blocks_comparable(ir@, left@, right@),
    decreases ir@.blocks.len() * ir@.blocks.len() - old(path)@.len(),
{
    let ghost n = ir@.blocks.len();
    let ghost start = path@;
    let ghost li = left@.items;
    let ghost ri = right@.items;
    let ghost mut depth: nat = 0;
    let mut i: usize = 0;
    while i < left.items.len()
        invariant
            i <= left.items@.len(),
            n == ir@.blocks.len(),
            li == left@.items,
            ri == right@.items,
            path@ == start,
            start == old(path)@,
            start.no_duplicates(),
            forall|j: int|
                0 <= j < start.len() ==> (#[trigger] start[j]).0 < n && start[j].1 < n && leads_to(
                    ir@,
                    start[j],
                    left@,
                    right@,
                ),
            forall|j: int| 0 <= j < i ==> item_meets(ir@, #[trigger] li[j], ri, depth),
        decreases left.items@.len() - i,
    {
        let l = &left.items[i];
        let ghost mut here: nat = 0;
        assert(li[i as int] == l@);
        if let Some(k) = find_item(&right.items, l.byte_offset) {
            let r = &right.items[k];
            match (&l.inner, &r.inner) {
                (BlockItemInner::Block(lb), BlockItemInner::Block(rb)) => {
                    let (a, b) = match (
                        ir.blocks.find(lb.block.as_str()),
                        ir.blocks.find(rb.block.as_str()),
                    ) {
                        (Some(a), Some(b)) => (a, b),
                        _ => {
                            assert forall|d: nat| !#[trigger] blocks_meet(
                                ir@,
                                left@,
                                right@,
                                d,
                            ) by {
                                assert(!item_meets(ir@, li[i as int], ri, d));
                            }
                            return false;
                        },
                    };
                    let ghost pair = (a, b);
                    proof {
                        lemma_entry_unique(ir@.blocks, lb.block@, a as int);
                        lemma_entry_unique(ir@.blocks, rb.block@, b as int);
                        assert forall|d: nat| #[trigger] blocks_meet(
                            ir@,
                            left@,
                            right@,
                            d,
                        ) implies d > 0 && pair_meets(ir@, pair, (d - 1) as nat) by {
                            assert(item_meets(ir@, li[i as int], ri, d));
                        }
                    }
                    match on_path(path, (a, b)) {
                        Some(j) => {
                            assert forall|d: nat| !#[trigger] blocks_meet(
                                ir@,
                                left@,
                                right@,
                                d,
                            ) by {
                                assert(leads_to(ir@, start[j as int], left@, right@));
                                lemma_circle(ir@, left@, right@, pair, d);
                            }
                            return false;
                        },
                        None => {},
                    }
                    let lblock = ir.blocks.value_at(a);
                    let rblock = ir.blocks.value_at(b);
                    path.push((a, b));
                    proof {
                        assert(path@.no_duplicates());
                        assert forall|j: int| 0 <= j < path@.len() implies (#[trigger] path@[j]).0
                            < n && path@[j].1 < n && leads_to(
                            ir@,
                            path@[j],
                            lblock@,
                            rblock@,
                        ) by {
                            if j < start.len() {
                                assert(path@[j] == start[j]);
                                assert forall|d: nat| #[trigger]
                                    pair_meets(ir@, path@[j], d) implies exists|e: nat|
                                    e <= d && #[trigger] blocks_meet(ir@, lblock@, rblock@, e) by {
                                    let e = choose|e: nat|
                                        e <= d && #[trigger] blocks_meet(ir@, left@, right@, e);
                                    assert(pair_meets(ir@, pair, (e - 1) as nat));
                                    assert(blocks_meet(ir@, lblock@, rblock@, (e - 1) as nat));
                                }
                            } else {
                                assert forall|d: nat| #[trigger]
                                    pair_meets(ir@, path@[j], d) implies exists|e: nat|
                                    e <= d && #[trigger] blocks_meet(ir@, lblock@, rblock@, e) by {
                                    assert(blocks_meet(ir@, lblock@, rblock@, d));
                                }
                            }
                        }
                        lemma_pairs_bounded(path@, n);
                    }
                    let nested = can_compare_from(ir, lblock, rblock, path);
                    path.pop();
                    assert(path@ =~= start);
                    if !nested {
                        assert forall|d: nat| !#[trigger] blocks_meet(ir@, left@, right@, d) by {
                            if blocks_meet(ir@, left@, right@, d) {
                                assert(pair_meets(ir@, pair, (d - 1) as nat));
                                assert(blocks_meet(ir@, lblock@, rblock@, (d - 1) as nat));
                            }
                        }
                        return false;
                    }
                    proof {
                        let e = choose|e: nat| #[trigger] blocks_meet(ir@, lblock@, rblock@, e);
                        here = e + 1;
                        assert(item_meets(ir@, li[i as int], ri, here));
                    }
                },
                (BlockItemInner::Register(lr), BlockItemInner::Register(rr)) => {
                    if let (Some(lf), Some(rf)) = (&lr.fieldset, &rr.fieldset) {
                        if ir.fieldsets.get(lf.as_str()).is_none() || ir.fieldsets.get(
                            rf.as_str(),
                        ).is_none() {
                            assert forall|d: nat| !#[trigger] blocks_meet(
                                ir@,
                                left@,
                                right@,
                                d,
                            ) by {
                                assert(!item_meets(ir@, li[i as int], ri, d));
                            }
                            return false;
                        }
                    }
                    assert(item_meets(ir@, li[i as int], ri, here));
                },
                _ => {
                    assert(item_meets(ir@, li[i as int], ri, here));
                },
            }
        }
        proof {
            let both = if here > depth {
                here
            } else {
                depth
            };
            assert(item_meets(ir@, li[i as int], ri, here));
            lemma_item_deeper(ir@, li[i as int], ri, here, both);
            assert forall|j: int| 0 <= j < i implies item_meets(
                ir@,
                #[trigger] li[j],
                ri,
                both,
            ) by {
                lemma_item_deeper(ir@, li[j], ri, depth, both);
            }
            depth = both;
        }
        i += 1;
    }
    assert(blocks_meet(ir@, left@, right@, depth));
    true
}

/// Whether two blocks can be compared: every block and fieldset that the
/// comparison looks up is there, and the comparison comes to an end.
pub fn can_compare_blocks(ir: &IR, left: &Block, right: &Block) -> (r: bool)
    ensures
        r == blocks_comparable(ir@, left@, right@),
{
    let mut path: Vec<(usize, usize)> = Vec::new();
    can_compare_from(ir, left, right, &mut path)
}

/// Whether two items of one offset can be compared.
pub fn can_compare_items(ir: &IR, left: &BlockItem, right: &BlockItem) -> (r: bool)
    requires
        left.byte_offset == right.byte_offset,
    ensures
        r == items_comparable(ir@, left@, right@),
{
    let l = Block { extends: None, description: None, items: vec![left.duplicate()] };
    let r = Block { extends: None, description: None, items: vec![right.duplicate()] };
    proof {
        let p = at_offset(left.byte_offset);
        assert(is_first(r@.items, p, 0));
        lemma_first(r@.items, p, 0);
        assert(l@.items[0] == left@);
        assert forall|d: nat|
            #[trigger] blocks_meet(ir@, l@, r@, d) == inners_meet(
                ir@,
                left@.inner,
                right@.inner,
                d,
            ) by {
            assert(item_meets(ir@, l@.items[0], r@.items, d) == inners_meet(
                ir@,
                left@.inner,
                right@.inner,
                d,
            ));
        }
        if items_comparable(ir@, left@, right@) {
            let d = choose|d: nat| #[trigger] inners_meet(ir@, left@.inner, right@.inner, d);
            assert(blocks_meet(ir@, l@, r@, d));
        }
    }
    can_compare_blocks(ir, &l, &r)
}

} // verus!
