//! What holds of a whole check: which items are listed, and what a report says of
//! them.
use crate::commands::check_compat::{
    anchored, block_item, fieldset_item, lines_from, listing, pair_agrees, pair_comparable,
    pair_lines, picked, reach, report_of, selection, taken, taken_of, ItemView,
};
use crate::commands::compat::fieldset_errors;
use crate::commands::compat_laws::{
    blocks_compatible, lemma_block_symmetric, lemma_block_transitive, lemma_fieldset_symmetric,
    lemma_fieldset_transitive,
};
use crate::ir::IrView;
use crate::name_map::{keys_increase, Entries};
use crate::seqs::{gather, lemma_gather_empty};
use crate::text::less;
use crate::transform::common::CheckLevel;
use vstd::prelude::*;

verus! {

broadcast use vstd::seq::group_seq_axioms;

/// An item is picked exactly where it is made of an entry that is hit.
proof fn lemma_picked<V>(
    m: Entries<V>,
    hits: Seq<bool>,
    make: spec_fn((Seq<char>, V)) -> ItemView,
    item: ItemView,
)
    ensures
        picked(m, hits, make).contains(item) <==> exists|i: int|
            0 <= i < m.len() && hits[i] && make(#[trigger] m[i]) == item,
    decreases m.len(),
{
    let all = picked(m, hits, make);
    if m.len() > 0 {
        let init = m.drop_last();
        let before = picked(init, hits, make);
        lemma_picked(init, hits, make, item);
        if all.contains(item) {
            let k = choose|k: int| 0 <= k < all.len() && all[k] == item;
            if k < before.len() {
                assert(before[k] == item);
                let i = choose|i: int|
                    0 <= i < init.len() && hits[i] && make(#[trigger] init[i]) == item;
                assert(make(m[i]) == item);
            } else {
                assert(make(m[m.len() - 1]) == item);
            }
        }
        if exists|i: int| 0 <= i < m.len() && hits[i] && make(#[trigger] m[i]) == item {
            let i = choose|i: int| 0 <= i < m.len() && hits[i] && make(#[trigger] m[i]) == item;
            if i < m.len() - 1 {
                assert(make(init[i]) == item);
                let k = choose|k: int| 0 <= k < before.len() && before[k] == item;
                assert(all[k] == item);
            } else {
                assert(all[before.len() as int] == item);
            }
        }
    }
}

/// Picked items stand in the order of their names.
proof fn lemma_picked_in_order<V>(
    m: Entries<V>,
    hits: Seq<bool>,
    make: spec_fn((Seq<char>, V)) -> ItemView,
)
    requires
        keys_increase(m),
        forall|e: (Seq<char>, V)| (#[trigger] make(e)).name() == e.0,
    ensures
        forall|i: int, j: int|
            0 <= i < j < picked(m, hits, make).len() ==> less(
                (#[trigger] picked(m, hits, make)[i]).name(),
                (#[trigger] picked(m, hits, make)[j]).name(),
            ),
    decreases m.len(),
{
    if m.len() > 0 {
        let all = picked(m, hits, make);
        let init = m.drop_last();
        let before = picked(init, hits, make);
        assert(keys_increase(init)) by {
            assert forall|i: int, j: int| 0 <= i < j < init.len() implies less(
                #[trigger] init[i].0,
                #[trigger] init[j].0,
            ) by {
                assert(less(m[i].0, m[j].0));
            }
        }
        lemma_picked_in_order(init, hits, make);
        assert forall|i: int, j: int| 0 <= i < j < all.len() implies less(
            (#[trigger] all[i]).name(),
            (#[trigger] all[j]).name(),
        ) by {
            assert(all[i] == before[i]);
            if j < before.len() {
                assert(all[j] == before[j]);
                assert(less(before[i].name(), before[j].name()));
            } else {
                assert(before.contains(before[i]));
                lemma_picked(init, hits, make, before[i]);
                let k = choose|k: int|
                    0 <= k < init.len() && hits[k] && make(#[trigger] init[k]) == before[i];
                assert(make(init[k]).name() == init[k].0);
                assert(less(m[k].0, m[m.len() - 1].0));
            }
        }
    }
}

/// A block is selected exactly where it is in the register map under a name that
/// is wanted and not excluded, and so is a fieldset.
pub proof fn lemma_selected(
    ir: IrView,
    wanted: Seq<char>,
    exclude: Option<Seq<char>>,
    item: ItemView,
)
    ensures
        selection(ir, wanted, exclude).contains(item) <==> {
            &&& taken(wanted, exclude, item.name())
            &&& match item {
                ItemView::Block(name, b) => ir.blocks.contains((name, b)),
                ItemView::Fieldset(name, f) => ir.fieldsets.contains((name, f)),
            }
        },
{
    let hb = taken_of(wanted, exclude, ir.blocks);
    let hf = taken_of(wanted, exclude, ir.fieldsets);
    let blocks = picked(ir.blocks, hb, block_item());
    let sets = picked(ir.fieldsets, hf, fieldset_item());
    let all = selection(ir, wanted, exclude);
    lemma_picked(ir.blocks, hb, block_item(), item);
    lemma_picked(ir.fieldsets, hf, fieldset_item(), item);
    assert(all.contains(item) <==> blocks.contains(item) || sets.contains(item)) by {
        if blocks.contains(item) {
            let k = choose|k: int| 0 <= k < blocks.len() && blocks[k] == item;
            assert(all[k] == item);
        }
        if sets.contains(item) {
            let k = choose|k: int| 0 <= k < sets.len() && sets[k] == item;
            assert(all[blocks.len() + k] == item);
        }
        if all.contains(item) {
            let k = choose|k: int| 0 <= k < all.len() && all[k] == item;
            if k < blocks.len() {
                assert(blocks[k] == item);
            } else {
                assert(sets[k - blocks.len()] == item);
            }
        }
    }
    match item {
        ItemView::Block(name, b) => {
            if ir.blocks.contains((name, b)) && taken(wanted, exclude, name) {
                let i = choose|i: int| 0 <= i < ir.blocks.len() && ir.blocks[i] == (name, b);
                assert(block_item()(ir.blocks[i]) == item);
            }
            if blocks.contains(item) {
                let i = choose|i: int|
                    0 <= i < ir.blocks.len() && hb[i] && block_item()(#[trigger] ir.blocks[i])
                        == item;
                assert(ir.blocks[i] == (name, b));
            }
        },
        ItemView::Fieldset(name, f) => {
            if ir.fieldsets.contains((name, f)) && taken(wanted, exclude, name) {
                let i = choose|i: int|
                    0 <= i < ir.fieldsets.len() && ir.fieldsets[i] == (name, f);
                assert(fieldset_item()(ir.fieldsets[i]) == item);
            }
            if sets.contains(item) {
                let i = choose|i: int|
                    0 <= i < ir.fieldsets.len() && hf[i] && fieldset_item()(
                        #[trigger] ir.fieldsets[i],
                    ) == item;
                assert(ir.fieldsets[i] == (name, f));
            }
        },
    }
}

/// A selection names the blocks before the fieldsets, each in the order of their
/// names; so it names nothing twice.
pub proof fn lemma_selected_in_order(ir: IrView, wanted: Seq<char>, exclude: Option<Seq<char>>)
    requires
        keys_increase(ir.blocks),
        keys_increase(ir.fieldsets),
    ensures
        forall|i: int, j: int|
            0 <= i < j < selection(ir, wanted, exclude).len() ==> match (
                #[trigger] selection(ir, wanted, exclude)[i],
                #[trigger] selection(ir, wanted, exclude)[j],
            ) {
                (ItemView::Block(a, _), ItemView::Block(b, _)) => less(a, b),
                (ItemView::Fieldset(a, _), ItemView::Fieldset(b, _)) => less(a, b),
                (ItemView::Block(_, _), ItemView::Fieldset(_, _)) => true,
                (ItemView::Fieldset(_, _), ItemView::Block(_, _)) => false,
            },
        selection(ir, wanted, exclude).no_duplicates(),
{
    let hb = taken_of(wanted, exclude, ir.blocks);
    let hf = taken_of(wanted, exclude, ir.fieldsets);
    let blocks = picked(ir.blocks, hb, block_item());
    let sets = picked(ir.fieldsets, hf, fieldset_item());
    let all = selection(ir, wanted, exclude);
    lemma_picked_in_order(ir.blocks, hb, block_item());
    lemma_picked_in_order(ir.fieldsets, hf, fieldset_item());
    assert forall|i: int| 0 <= i < all.len() implies (#[trigger] all[i] is Block <==> i
        < blocks.len()) by {
        if i < blocks.len() {
            assert(blocks.contains(blocks[i]));
            lemma_picked(ir.blocks, hb, block_item(), blocks[i]);
        } else {
            let k = i - blocks.len();
            assert(sets.contains(sets[k]));
            lemma_picked(ir.fieldsets, hf, fieldset_item(), sets[k]);
        }
    }
    assert forall|i: int, j: int| 0 <= i < j < all.len() implies match (
        #[trigger] all[i],
        #[trigger] all[j],
    ) {
        (ItemView::Block(a, _), ItemView::Block(b, _)) => less(a, b),
        (ItemView::Fieldset(a, _), ItemView::Fieldset(b, _)) => less(a, b),
        (ItemView::Block(_, _), ItemView::Fieldset(_, _)) => true,
        (ItemView::Fieldset(_, _), ItemView::Block(_, _)) => false,
    } by {
        if j < blocks.len() {
            assert(less(blocks[i].name(), blocks[j].name()));
        } else if i >= blocks.len() {
            let a = i - blocks.len();
            let b = j - blocks.len();
            assert(less(sets[a].name(), sets[b].name()));
        }
    }
    assert forall|i: int, j: int|
        0 <= i < all.len() && 0 <= j < all.len() && i != j implies all[i] != all[j] by {
        crate::text::lemma_less_irreflexive(all[i].name());
        if i < j {
            assert(all[i] != all[j]);
        } else {
            assert(all[j] != all[i]);
        }
    }
}

/// Without a main item that is asked for, the main item is the first of the
/// selection, the rest is what follows it, and so the main item is not among the
/// rest.
pub proof fn lemma_first_is_main(ir: IrView, wanted: Seq<char>, exclude: Option<Seq<char>>)
    requires
        keys_increase(ir.blocks),
        keys_increase(ir.fieldsets),
        listing(ir, wanted, exclude, None) is Ok,
    ensures
        ({
            let (main, rest) = listing(ir, wanted, exclude, None)->Ok_0;
            let leave_out = match exclude {
                Some(x) => Some(anchored(x)),
                None => None,
            };
            &&& seq![main] + rest == selection(ir, anchored(wanted), leave_out)
            &&& !rest.contains(main)
        }),
{
    let (main, rest) = listing(ir, wanted, exclude, None)->Ok_0;
    let leave_out = match exclude {
        Some(x) => Some(anchored(x)),
        None => None,
    };
    let all = selection(ir, anchored(wanted), leave_out);
    lemma_selected_in_order(ir, anchored(wanted), leave_out);
    assert(seq![main] + rest =~= all);
    if rest.contains(main) {
        let k = choose|k: int| 0 <= k < rest.len() && rest[k] == main;
        assert(all[0] == all[k + 1]);
    }
}

/// A main item that is asked for need not be wanted, and an exclusion does not
/// touch it; the rest is the whole selection.
pub proof fn lemma_main_asked_for(
    ir: IrView,
    wanted: Seq<char>,
    exclude: Option<Seq<char>>,
    main: Seq<char>,
)
    requires
        listing(ir, wanted, exclude, Some(main)) is Ok,
    ensures
        ({
            let (item, rest) = listing(ir, wanted, exclude, Some(main))->Ok_0;
            let leave_out = match exclude {
                Some(x) => Some(anchored(x)),
                None => None,
            };
            &&& item == selection(ir, anchored(main), None)[0]
            &&& rest == selection(ir, anchored(wanted), leave_out)
        }),
{
}

/// Whether two items are both blocks or both fieldsets.
pub open spec fn same_kind(l: ItemView, r: ItemView) -> bool {
    (l is Block) == (r is Block)
}

/// A report has no lines exactly where it is a success and nothing was compared
/// with a thing of another kind.
pub proof fn lemma_no_lines(ir: IrView, main: ItemView, rest: Seq<ItemView>)
    ensures
        report_of(ir, main, rest).errors.len() == 0 <==> {
            &&& report_of(ir, main, rest).ok
            &&& forall|i: int|
                0 <= i < reach(ir, main, rest) ==> same_kind(main, #[trigger] rest[i])
        },
{
    lemma_reach_bounded(ir, main, rest);
    let compared = rest.take(reach(ir, main, rest) as int);
    let f = lines_from(ir, main);
    lemma_gather_empty(compared, f);
    assert forall|i: int| 0 <= i < compared.len() implies (f(#[trigger] compared[i]).len() == 0
        <==> pair_agrees(ir, main, compared[i]) && same_kind(main, compared[i])) by {
        assert(f(compared[i]) == pair_lines(ir, main, compared[i]));
    }
    if gather(compared, f).len() == 0 {
        assert forall|i: int| 0 <= i < reach(ir, main, rest) implies same_kind(
            main,
            #[trigger] rest[i],
        ) by {
            assert(f(compared[i]).len() == 0);
        }
        assert forall|i: int| 0 <= i < compared.len() implies pair_agrees(
            ir,
            main,
            #[trigger] compared[i],
        ) by {
            assert(f(compared[i]).len() == 0);
        }
    }
    if report_of(ir, main, rest).ok && (forall|i: int|
        0 <= i < reach(ir, main, rest) ==> same_kind(main, #[trigger] rest[i])) {
        assert forall|i: int| 0 <= i < compared.len() implies f(#[trigger] compared[i]).len()
            == 0 by {
            assert(same_kind(main, rest[i]));
            assert(pair_agrees(ir, main, compared[i]));
        }
    }
}

/// All before the reach can be compared.
pub proof fn lemma_reach_bounded(ir: IrView, main: ItemView, rest: Seq<ItemView>)
    ensures
        reach(ir, main, rest) <= rest.len(),
        forall|i: int|
            0 <= i < reach(ir, main, rest) ==> pair_comparable(ir, main, #[trigger] rest[i]),
    decreases rest.len(),
{
    if rest.len() > 0 && pair_comparable(ir, main, rest[0]) {
        let tail = rest.skip(1);
        lemma_reach_bounded(ir, main, tail);
        assert forall|i: int| 0 <= i < reach(ir, main, rest) implies pair_comparable(
            ir,
            main,
            #[trigger] rest[i],
        ) by {
            if i > 0 {
                assert(pair_comparable(ir, main, tail[i - 1]));
            }
        }
    }
}

/// Whether two items are of one kind and compatible.
pub open spec fn items_compatible(ir: IrView, l: ItemView, r: ItemView) -> bool {
    match (l, r) {
        (ItemView::Block(_, a), ItemView::Block(_, b)) => blocks_compatible(
            ir,
            a,
            b,
            CheckLevel::Descriptions,
        ),
        (ItemView::Fieldset(_, a), ItemView::Fieldset(_, b)) => fieldset_errors(
            a,
            b,
            CheckLevel::Descriptions,
        ).len() == 0,
        _ => false,
    }
}

/// In a check that succeeds, the main item is compatible with each of the rest
/// that is of its kind.
pub proof fn lemma_success(ir: IrView, main: ItemView, rest: Seq<ItemView>, i: int)
    requires
        report_of(ir, main, rest).ok,
        !report_of(ir, main, rest).broken,
        0 <= i < rest.len(),
        same_kind(main, rest[i]),
    ensures
        items_compatible(ir, main, rest[i]),
{
    lemma_reach_bounded(ir, main, rest);
    let compared = rest.take(reach(ir, main, rest) as int);
    assert(compared[i] == rest[i]);
    assert(pair_comparable(ir, main, rest[i]));
    assert(pair_agrees(ir, main, compared[i]));
}

/// In a check that fails, the main item is not compatible with one of the rest
/// that is of its kind.
pub proof fn lemma_failure(ir: IrView, main: ItemView, rest: Seq<ItemView>) -> (i: int)
    requires
        !report_of(ir, main, rest).ok,
    ensures
        0 <= i < rest.len(),
        same_kind(main, rest[i]),
        !items_compatible(ir, main, rest[i]),
{
    lemma_reach_bounded(ir, main, rest);
    let compared = rest.take(reach(ir, main, rest) as int);
    let i = choose|i: int| 0 <= i < compared.len() && !pair_agrees(ir, main, #[trigger] compared[i]);
    assert(compared[i] == rest[i]);
    i
}

/// In a check that succeeds, any two of the rest that are of the main item's kind
/// are compatible with one another, if the first of them is so with itself.
pub proof fn lemma_success_of_all(ir: IrView, main: ItemView, rest: Seq<ItemView>, i: int, j: int)
    requires
        report_of(ir, main, rest).ok,
        !report_of(ir, main, rest).broken,
        0 <= i < rest.len(),
        0 <= j < rest.len(),
        same_kind(main, rest[i]),
        same_kind(main, rest[j]),
        items_compatible(ir, rest[i], rest[i]),
    ensures
        items_compatible(ir, rest[i], rest[j]),
{
    lemma_success(ir, main, rest, i);
    lemma_success(ir, main, rest, j);
    let level = CheckLevel::Descriptions;
    match (main, rest[i], rest[j]) {
        (ItemView::Block(_, m), ItemView::Block(_, a), ItemView::Block(_, b)) => {
            lemma_block_symmetric(ir, m, a, level);
            lemma_block_transitive(ir, a, m, b, level);
        },
        (ItemView::Fieldset(_, m), ItemView::Fieldset(_, a), ItemView::Fieldset(_, b)) => {
            lemma_fieldset_symmetric(m, a, level);
            lemma_fieldset_transitive(a, m, b, level);
        },
        _ => {},
    }
}

} // verus!
