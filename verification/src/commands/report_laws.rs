//! Which items a check lists and what its report says, told from the lists of the
//! register map and from the arguments' characters.
use crate::commands::check_compat::{
    anchored, block_item, fieldset_item, found, lines_from, listing, pair_agrees, pair_comparable,
    pair_lines, picked, reach, report_of, selection, taken_of, CheckCompatError, ItemView,
};
use crate::commands::check_laws::lemma_reach_bounded;
use crate::commands::compat::{block_errors, blocks_comparable, fieldset_errors};
use crate::ir::IrView;
use crate::name_map::Entries;
use crate::patterns::{regex_failure, regex_matches};
use crate::seqs::{lemma_gather_at, lemma_gather_len, lemma_total_same, total};
use crate::transform::common::CheckLevel;
use vstd::prelude::*;

verus! {

broadcast use vstd::seq::group_seq_axioms;

/// Whether a pattern asks for whole names that match the argument: it is `^`, the
/// argument as it is, and `$`.
pub open spec fn asks_whole(p: Seq<char>, arg: Seq<char>) -> bool {
    &&& p.len() == arg.len() + 2
    &&& p[0] == '^'
    &&& p[p.len() - 1] == '$'
    &&& forall|i: int| 0 <= i < arg.len() ==> p[i + 1] == #[trigger] arg[i]
}

/// As `asks_whole`, for an argument that may be missing.
pub open spec fn asks_whole_opt(p: Option<Seq<char>>, arg: Option<Seq<char>>) -> bool {
    match (p, arg) {
        (Some(q), Some(a)) => asks_whole(q, a),
        (None, None) => true,
        _ => false,
    }
}

/// Why a pattern does not compile, if it does not.
pub open spec fn failure(p: Seq<char>) -> Option<regex::Error> {
    regex_failure(p, usize::BITS)
}

/// Whether `i` is the first entry whose name matches.
pub open spec fn first_hit<V>(m: Entries<V>, p: Seq<char>, i: int) -> bool {
    &&& 0 <= i < m.len()
    &&& regex_matches(p, m[i].0)
    &&& forall|j: int| 0 <= j < i ==> !regex_matches(p, (#[trigger] m[j]).0)
}

/// Whether no name matches.
pub open spec fn no_hit<V>(m: Entries<V>, p: Seq<char>) -> bool {
    forall|j: int| 0 <= j < m.len() ==> !regex_matches(p, (#[trigger] m[j]).0)
}

/// Whether an item is the first block whose name matches or, without such a block,
/// the first such fieldset.
pub open spec fn is_first_match(ir: IrView, p: Seq<char>, item: ItemView) -> bool {
    match item {
        ItemView::Block(name, b) => exists|i: int| #[trigger]
            first_hit(ir.blocks, p, i) && ir.blocks[i] == (name, b),
        ItemView::Fieldset(name, f) => no_hit(ir.blocks, p) && exists|i: int| #[trigger]
            first_hit(ir.fieldsets, p, i) && ir.fieldsets[i] == (name, f),
    }
}

/// Whether a name matches the one pattern and, if there is another, not that one.
pub open spec fn is_chosen(w: Seq<char>, x: Option<Seq<char>>, name: Seq<char>) -> bool {
    regex_matches(w, name) && (x matches Some(y) ==> !regex_matches(y, name))
}

/// One for each name that is chosen.
pub open spec fn choice<V>(w: Seq<char>, x: Option<Seq<char>>) -> spec_fn((Seq<char>, V)) -> nat {
    |e: (Seq<char>, V)|
        if is_chosen(w, x, e.0) {
            1nat
        } else {
            0nat
        }
}

/// Whether the items are the chosen blocks and then the chosen fieldsets, each in
/// the order of the register map.
pub open spec fn is_listed(
    ir: IrView,
    w: Seq<char>,
    x: Option<Seq<char>>,
    items: Seq<ItemView>,
) -> bool {
    let blocks = total(ir.blocks, choice(w, x));
    &&& items.len() == blocks + total(ir.fieldsets, choice(w, x))
    &&& forall|i: int|
        0 <= i < ir.blocks.len() && is_chosen(w, x, (#[trigger] ir.blocks[i]).0) ==> {
            let at = total(ir.blocks.take(i), choice(w, x)) as int;
            at < blocks && items[at] == ItemView::Block(ir.blocks[i].0, ir.blocks[i].1)
        }
    &&& forall|i: int|
        0 <= i < ir.fieldsets.len() && is_chosen(w, x, (#[trigger] ir.fieldsets[i]).0) ==> {
            let at = blocks + total(ir.fieldsets.take(i), choice(w, x));
            at < items.len() && items[at as int] == ItemView::Fieldset(
                ir.fieldsets[i].0,
                ir.fieldsets[i].1,
            )
        }
}

/// Whether no name is chosen.
pub open spec fn none_chosen(ir: IrView, w: Seq<char>, x: Option<Seq<char>>) -> bool {
    &&& forall|i: int| 0 <= i < ir.blocks.len() ==> !is_chosen(w, x, (#[trigger] ir.blocks[i]).0)
    &&& forall|i: int|
        0 <= i < ir.fieldsets.len() ==> !is_chosen(w, x, (#[trigger] ir.fieldsets[i]).0)
}

/// Whether this is what is compared with what: the first error that the patterns
/// give; else the main item, which is the first that was asked for, or the first
/// of all, and the others.
pub open spec fn lists(
    ir: IrView,
    w: Seq<char>,
    x: Option<Seq<char>>,
    m: Option<Seq<char>>,
    r: Result<(ItemView, Seq<ItemView>), CheckCompatError>,
) -> bool {
    if let Some(e) = failure(w) {
        r == Err::<(ItemView, Seq<ItemView>), _>(CheckCompatError::InvalidInclude(e))
    } else if x is Some && failure(x->0) is Some {
        r == Err::<(ItemView, Seq<ItemView>), _>(
            CheckCompatError::InvalidExclude(failure(x->0)->0),
        )
    } else {
        match m {
            Some(p) => if let Some(e) = failure(p) {
                r == Err::<(ItemView, Seq<ItemView>), _>(CheckCompatError::InvalidMain(e))
            } else if no_hit(ir.blocks, p) && no_hit(ir.fieldsets, p) {
                r == Err::<(ItemView, Seq<ItemView>), _>(CheckCompatError::MainNotFound)
            } else {
                &&& r is Ok
                &&& is_first_match(ir, p, (r->Ok_0).0)
                &&& is_listed(ir, w, x, (r->Ok_0).1)
            },
            None => if none_chosen(ir, w, x) {
                r == Err::<(ItemView, Seq<ItemView>), _>(CheckCompatError::NoItems)
            } else {
                r is Ok && is_listed(ir, w, x, seq![(r->Ok_0).0] + (r->Ok_0).1)
            },
        }
    }
}

/// A pattern that asks for whole names is the anchored one.
pub proof fn lemma_asks_whole(p: Seq<char>, arg: Seq<char>)
    ensures
        asks_whole(p, arg) <==> p == anchored(arg),
{
    reveal_strlit("^");
    reveal_strlit("$");
    let q = anchored(arg);
    assert(q.len() == arg.len() + 2);
    assert(q[0] == '^' && q[q.len() - 1] == '$');
    assert forall|i: int| 0 <= i < arg.len() implies q[i + 1] == #[trigger] arg[i] by {
    }
    if asks_whole(p, arg) {
        assert forall|i: int| 0 <= i < p.len() implies p[i] == q[i] by {
            if 0 < i < p.len() - 1 {
                assert(p[i - 1 + 1] == arg[i - 1]);
            }
        }
        assert(p =~= q);
    }
}

/// Whether the item of entry `i` stands where the entry is counted.
spec fn stands_at<V>(
    m: Entries<V>,
    make: spec_fn((Seq<char>, V)) -> ItemView,
    w: spec_fn((Seq<char>, V)) -> nat,
    items: Seq<ItemView>,
    i: int,
) -> bool {
    total(m.take(i), w) < items.len() && items[total(m.take(i), w) as int] == make(m[i])
}

/// The picked items stand where their entries are counted.
proof fn lemma_picked_at<V>(
    m: Entries<V>,
    hits: Seq<bool>,
    make: spec_fn((Seq<char>, V)) -> ItemView,
    w: spec_fn((Seq<char>, V)) -> nat,
)
    requires
        forall|i: int| 0 <= i < m.len() ==> w(#[trigger] m[i]) == if hits[i] {
            1nat
        } else {
            0nat
        },
    ensures
        picked(m, hits, make).len() == total(m, w),
        forall|i: int|
            0 <= i < m.len() && hits[i] ==> #[trigger] stands_at(
                m,
                make,
                w,
                picked(m, hits, make),
                i,
            ),
    decreases m.len(),
{
    if m.len() > 0 {
        let init = m.drop_last();
        let n = m.len() - 1;
        assert forall|i: int| 0 <= i < init.len() implies w(#[trigger] init[i]) == if hits[i] {
            1nat
        } else {
            0nat
        } by {
            assert(init[i] == m[i]);
        }
        lemma_picked_at(init, hits, make, w);
        assert(w(m[n]) == if hits[n] {
            1nat
        } else {
            0nat
        });
        let before = picked(init, hits, make);
        let all = picked(m, hits, make);
        assert(m.take(n) =~= init);
        assert forall|i: int| 0 <= i < m.len() && hits[i] implies #[trigger] stands_at(
            m,
            make,
            w,
            all,
            i,
        ) by {
            if i < n {
                assert(stands_at(init, make, w, before, i));
                assert(init[i] == m[i]);
                assert(init.take(i) =~= m.take(i));
                let at = total(init.take(i), w) as int;
                assert(all[at] == before[at]);
            } else {
                assert(all[before.len() as int] == make(m[n]));
            }
        }
    }
}

/// A selection lists what is chosen.
proof fn lemma_selection(ir: IrView, w: Seq<char>, x: Option<Seq<char>>)
    ensures
        is_listed(ir, w, x, selection(ir, w, x)),
        selection(ir, w, x).len() == 0 <==> none_chosen(ir, w, x),
{
    let hb = taken_of(w, x, ir.blocks);
    let hf = taken_of(w, x, ir.fieldsets);
    let blocks = picked(ir.blocks, hb, block_item());
    let sets = picked(ir.fieldsets, hf, fieldset_item());
    let all = selection(ir, w, x);
    lemma_picked_at(ir.blocks, hb, block_item(), choice(w, x));
    lemma_picked_at(ir.fieldsets, hf, fieldset_item(), choice(w, x));
    assert forall|i: int|
        0 <= i < ir.blocks.len() && is_chosen(w, x, (#[trigger] ir.blocks[i]).0) implies {
        let at = total(ir.blocks.take(i), choice(w, x)) as int;
        at < blocks.len() && all[at] == ItemView::Block(ir.blocks[i].0, ir.blocks[i].1)
    } by {
        assert(hb[i]);
        assert(stands_at(ir.blocks, block_item(), choice(w, x), blocks, i));
        let at = total(ir.blocks.take(i), choice(w, x)) as int;
        assert(all[at] == blocks[at]);
    }
    assert forall|i: int|
        0 <= i < ir.fieldsets.len() && is_chosen(w, x, (#[trigger] ir.fieldsets[i]).0) implies {
        let at = blocks.len() + total(ir.fieldsets.take(i), choice(w, x));
        at < all.len() && all[at as int] == ItemView::Fieldset(
            ir.fieldsets[i].0,
            ir.fieldsets[i].1,
        )
    } by {
        assert(hf[i]);
        assert(stands_at(ir.fieldsets, fieldset_item(), choice(w, x), sets, i));
        let at = total(ir.fieldsets.take(i), choice(w, x)) as int;
        assert(all[blocks.len() + at] == sets[at]);
    }
    if none_chosen(ir, w, x) {
        crate::seqs::lemma_total_zero(ir.blocks, choice(w, x));
        crate::seqs::lemma_total_zero(ir.fieldsets, choice(w, x));
    }
    if all.len() == 0 {
        assert(none_chosen(ir, w, x)) by {
            if !none_chosen(ir, w, x) {
                if exists|i: int|
                    0 <= i < ir.blocks.len() && is_chosen(w, x, (#[trigger] ir.blocks[i]).0) {
                    let i = choose|i: int|
                        0 <= i < ir.blocks.len() && is_chosen(w, x, (#[trigger] ir.blocks[i]).0);
                    assert(total(ir.blocks.take(i), choice(w, x)) < blocks.len());
                } else {
                    let i = choose|i: int|
                        0 <= i < ir.fieldsets.len() && is_chosen(
                            w,
                            x,
                            (#[trigger] ir.fieldsets[i]).0,
                        );
                    assert(blocks.len() + total(ir.fieldsets.take(i), choice(w, x)) < all.len());
                }
            }
        }
    }
}

/// Without a match before an entry, none before it is counted.
proof fn lemma_first_counted<V>(m: Entries<V>, p: Seq<char>) -> (i: int)
    ensures
        no_hit(m, p) ==> i == m.len(),
        !no_hit(m, p) ==> first_hit(m, p, i),
        0 <= i <= m.len(),
        total(m.take(i), choice(p, None)) == 0,
    decreases m.len(),
{
    if m.len() == 0 {
        assert(m.take(0) =~= m);
        0
    } else {
        let init = m.drop_last();
        let i = lemma_first_counted(init, p);
        if i < init.len() {
            assert(!no_hit(init, p));
            assert(init[i] == m[i]);
            assert(regex_matches(p, m[i].0));
            assert forall|j: int| 0 <= j < i implies !regex_matches(p, (#[trigger] m[j]).0) by {
                assert(!regex_matches(p, init[j].0));
            }
            assert(init.take(i) =~= m.take(i));
            i
        } else {
            assert(no_hit(init, p)) by {
                if !no_hit(init, p) {
                    assert(first_hit(init, p, i));
                }
            }
            let n = m.len() - 1;
            assert forall|j: int| 0 <= j < n implies !regex_matches(p, (#[trigger] m[j]).0) by {
                assert(!regex_matches(p, init[j].0));
            }
            assert(init.take(i) =~= init);
            assert(m.take(n) =~= init);
            if regex_matches(p, m[n].0) {
                n
            } else {
                assert(m.take(m.len() as int) =~= m);
                m.len() as int
            }
        }
    }
}

/// The first of a selection is the first match.
proof fn lemma_first_selected(ir: IrView, p: Seq<char>)
    ensures
        selection(ir, p, None).len() == 0 <==> no_hit(ir.blocks, p) && no_hit(ir.fieldsets, p),
        selection(ir, p, None).len() > 0 ==> is_first_match(ir, p, selection(ir, p, None)[0]),
{
    lemma_selection(ir, p, None);
    let all = selection(ir, p, None);
    let i = lemma_first_counted(ir.blocks, p);
    let k = lemma_first_counted(ir.fieldsets, p);
    assert(none_chosen(ir, p, None) <==> no_hit(ir.blocks, p) && no_hit(ir.fieldsets, p)) by {
        if none_chosen(ir, p, None) {
            assert forall|j: int| 0 <= j < ir.blocks.len() implies !regex_matches(
                p,
                (#[trigger] ir.blocks[j]).0,
            ) by {
                assert(!is_chosen(p, None, ir.blocks[j].0));
            }
            assert forall|j: int| 0 <= j < ir.fieldsets.len() implies !regex_matches(
                p,
                (#[trigger] ir.fieldsets[j]).0,
            ) by {
                assert(!is_chosen(p, None, ir.fieldsets[j].0));
            }
        }
    }
    if !no_hit(ir.blocks, p) {
        assert(is_chosen(p, None, ir.blocks[i].0));
        assert(all[0] == ItemView::Block(ir.blocks[i].0, ir.blocks[i].1));
        assert(first_hit(ir.blocks, p, i));
    } else if !no_hit(ir.fieldsets, p) {
        assert(ir.blocks.take(ir.blocks.len() as int) =~= ir.blocks);
        assert(is_chosen(p, None, ir.fieldsets[k].0));
        assert(all[0] == ItemView::Fieldset(ir.fieldsets[k].0, ir.fieldsets[k].1));
        assert(first_hit(ir.fieldsets, p, k));
    }
}

/// What a name is found to be: an error exactly where the pattern for the whole name
/// does not compile, else the first match, if there is one.
pub proof fn lemma_found(ir: IrView, name: Seq<char>, p: Seq<char>)
    requires
        asks_whole(p, name),
    ensures
        match found(ir, name) {
            Err(e) => failure(p) == Some(e),
            Ok(None) => failure(p) is None && no_hit(ir.blocks, p) && no_hit(ir.fieldsets, p),
            Ok(Some(item)) => failure(p) is None && is_first_match(ir, p, item),
        },
{
    lemma_asks_whole(p, name);
    lemma_first_selected(ir, p);
}

/// What is compared with what goes by patterns for whole names.
pub proof fn lemma_lists(
    ir: IrView,
    wanted: Seq<char>,
    exclude: Option<Seq<char>>,
    main: Option<Seq<char>>,
    w: Seq<char>,
    x: Option<Seq<char>>,
    m: Option<Seq<char>>,
)
    requires
        asks_whole(w, wanted),
        asks_whole_opt(x, exclude),
        asks_whole_opt(m, main),
    ensures
        lists(ir, w, x, m, listing(ir, wanted, exclude, main)),
{
    lemma_asks_whole(w, wanted);
    if let (Some(q), Some(a)) = (x, exclude) {
        lemma_asks_whole(q, a);
    }
    if let (Some(q), Some(a)) = (m, main) {
        lemma_asks_whole(q, a);
        lemma_first_selected(ir, q);
    }
    lemma_selection(ir, w, x);
    let all = selection(ir, w, x);
    if all.len() > 0 {
        assert(seq![all[0]] + all.skip(1) =~= all);
    }
}

/// The name of an item.
pub open spec fn called(item: ItemView) -> Seq<char> {
    match item {
        ItemView::Block(name, _) => name,
        ItemView::Fieldset(name, _) => name,
    }
}

/// How many lines the comparison of two items gives: one for each error, and one
/// for two items of different kinds.
pub open spec fn line_count(ir: IrView, main: ItemView) -> spec_fn(ItemView) -> nat {
    |other: ItemView|
        match (main, other) {
            (ItemView::Block(_, l), ItemView::Block(_, r)) => block_errors(
                ir,
                l,
                r,
                CheckLevel::Descriptions,
            ).len(),
            (ItemView::Fieldset(_, l), ItemView::Fieldset(_, r)) => fieldset_errors(
                l,
                r,
                CheckLevel::Descriptions,
            ).len(),
            _ => 1nat,
        }
}

/// Whether a line is the `k`-th of the comparison of two items: their names and the
/// text of the `k`-th error, or what kinds the two items are of.
pub open spec fn is_line(
    ir: IrView,
    main: ItemView,
    other: ItemView,
    k: int,
    line: Seq<char>,
) -> bool {
    match (main, other) {
        (ItemView::Block(ln, l), ItemView::Block(rn, r)) => line == ln + " <=> "@ + rn + ": "@
            + block_errors(ir, l, r, CheckLevel::Descriptions)[k].text(),
        (ItemView::Fieldset(ln, l), ItemView::Fieldset(rn, r)) => line == ln + " <=> "@ + rn
            + ": "@ + fieldset_errors(l, r, CheckLevel::Descriptions)[k].text(),
        (ItemView::Block(ln, _), ItemView::Fieldset(rn, _)) => line == "block '"@ + ln + "'"@
            + " '"@ + ln + "' != "@ + ("fieldset '"@ + rn + "'"@) + " '"@ + rn + "'"@,
        (ItemView::Fieldset(ln, _), ItemView::Block(rn, _)) => line == "fieldset '"@ + ln + "'"@
            + " '"@ + ln + "' != "@ + ("block '"@ + rn + "'"@) + " '"@ + rn + "'"@,
    }
}

/// Whether the comparison of two items comes to an end.
pub open spec fn comes_to_an_end(ir: IrView, main: ItemView, other: ItemView) -> bool {
    (main is Block && other is Block) ==> blocks_comparable(ir, main->Block_1, other->Block_1)
}

/// Whether two items are of one kind and differ.
pub open spec fn differ(ir: IrView, main: ItemView, other: ItemView) -> bool {
    &&& main is Block == other is Block
    &&& line_count(ir, main)(other) > 0
}

/// A report names the main item and each of the rest. It compares them in order up
/// to the first comparison without an end, has a line for each error of each pair
/// and one for each pair of different kinds, in order, and counts as a success
/// exactly where no two items of one kind differ.
pub proof fn lemma_report(ir: IrView, main: ItemView, rest: Seq<ItemView>) -> (n: int)
    ensures
        ({
            let report = report_of(ir, main, rest);
            let w = line_count(ir, main);
            &&& 0 <= n <= rest.len()
            &&& forall|i: int| 0 <= i < n ==> comes_to_an_end(ir, main, #[trigger] rest[i])
            &&& n < rest.len() ==> !comes_to_an_end(ir, main, rest[n])
            &&& report.broken == (n < rest.len())
            &&& report.ok == (forall|i: int|
                0 <= i < n ==> !differ(ir, main, #[trigger] rest[i]))
            &&& report.info.len() == 1 + rest.len()
            &&& report.info[0] == "Found main: "@ + called(main)
            &&& forall|i: int|
                0 <= i < rest.len() ==> report.info[1 + i] == "Found additional: "@ + called(
                    #[trigger] rest[i],
                )
            &&& report.errors.len() == total(rest.take(n), w)
            &&& forall|i: int, k: int|
                0 <= i < n && 0 <= k < w(rest[i]) ==> #[trigger] has_line(
                    ir,
                    main,
                    rest,
                    report.errors,
                    i,
                    k,
                )
        }),
{
    lemma_reach_bounded(ir, main, rest);
    let n = reach(ir, main, rest) as int;
    let compared = rest.take(n);
    let f = lines_from(ir, main);
    let w = line_count(ir, main);
    let len = |a: ItemView| f(a).len();
    let report = report_of(ir, main, rest);
    lemma_reach_stops(ir, main, rest);
    lemma_gather_len(compared, f);
    assert forall|i: int| 0 <= i < compared.len() implies len(#[trigger] compared[i]) == w(
        compared[i],
    ) by {
        assert(f(compared[i]) == pair_lines(ir, main, compared[i]));
    }
    lemma_total_same(compared, len, w);
    assert forall|i: int| 0 <= i < n implies comes_to_an_end(ir, main, #[trigger] rest[i]) by {
        assert(pair_comparable(ir, main, rest[i]));
    }
    assert forall|i: int| 0 <= i < n implies pair_agrees(ir, main, #[trigger] rest[i]) == !differ(
        ir,
        main,
        rest[i],
    ) by {
    }
    if report.ok {
        assert forall|i: int| 0 <= i < n implies !differ(ir, main, #[trigger] rest[i]) by {
            assert(pair_agrees(ir, main, compared[i]));
        }
    } else {
        let i = choose|i: int|
            0 <= i < compared.len() && !pair_agrees(ir, main, #[trigger] compared[i]);
        assert(differ(ir, main, rest[i]));
    }
    assert forall|i: int, k: int| 0 <= i < n && 0 <= k < w(rest[i]) implies #[trigger] has_line(
        ir,
        main,
        rest,
        report.errors,
        i,
        k,
    ) by {
        assert(compared[i] == rest[i]);
        assert(len(compared[i]) == w(compared[i]));
        lemma_gather_at(compared, f, i, k);
        let before = compared.take(i);
        assert(before =~= rest.take(i));
        assert forall|j: int| 0 <= j < before.len() implies len(#[trigger] before[j]) == w(
            before[j],
        ) by {
            assert(len(compared[j]) == w(compared[j]));
        }
        lemma_total_same(before, len, w);
        let line = f(rest[i])[k];
        assert(line == pair_lines(ir, main, rest[i])[k]);
        assert(is_line(ir, main, rest[i], k, line));
    }
    n
}

/// Whether line `k` of the comparison with item `i` stands behind the lines of the
/// items before.
pub open spec fn has_line(
    ir: IrView,
    main: ItemView,
    rest: Seq<ItemView>,
    lines: Seq<Seq<char>>,
    i: int,
    k: int,
) -> bool {
    let at = total(rest.take(i), line_count(ir, main)) + k;
    0 <= at < lines.len() && is_line(ir, main, rest[i], k, lines[at])
}

/// What stands at the reach cannot be compared.
proof fn lemma_reach_stops(ir: IrView, main: ItemView, rest: Seq<ItemView>)
    ensures
        reach(ir, main, rest) < rest.len() ==> !pair_comparable(
            ir,
            main,
            rest[reach(ir, main, rest) as int],
        ),
    decreases rest.len(),
{
    if rest.len() > 0 && pair_comparable(ir, main, rest[0]) {
        lemma_reach_stops(ir, main, rest.skip(1));
    }
}

} // verus!
