//! Checks that blocks or fieldsets of a register map are compatible with one
//! another.
use crate::commands::compat::{
    all_block_errors_proper, all_fieldset_errors_proper, block_compat, block_errors,
    blocks_comparable, blocks_meet, fieldset_compat, fieldset_errors, lemma_block_errors_proper,
    lemma_fieldset_errors_proper,
};
use crate::commands::compat_error::{
    BlockError, BlockErrorView, FieldSetError, FieldSetErrorView,
};
use crate::commands::nesting::can_compare_blocks;
use crate::commands::report_laws::{
    asks_whole, asks_whole_opt, failure, is_first_match, lemma_found, lemma_lists, lists, no_hit,
};
use crate::ir::{views, Block, BlockView, Duplicate, FieldSet, FieldSetView, IrView, IR};
use crate::name_map::Entries;
use crate::patterns::{regex_failure, regex_matches, regex_pattern};
use crate::seqs::{gather, lemma_gather_step, one_if};
use crate::text::{all_chars, opt_chars};
use crate::transform::common::CheckLevel;
use vstd::prelude::*;

verus! {

broadcast use vstd::seq::group_seq_axioms;

/// What to check.
#[derive(Debug)]
pub struct CheckCompat {
    /// SVD file path.
    pub svd: String,
    /// Transforms file paths.
    pub transform: Vec<String>,
    /// Namespaces added to each extracted peripheral, by the name of the mode.
    pub namespaces: String,
    /// A pattern for the item that the others are compared with.
    pub main: Option<String>,
    /// A pattern for the items that are left out.
    pub exclude: Option<String>,
    /// A pattern for the items that are compared.
    pub included: String,
}

/// A thing that can be compared, with its name.
#[derive(Debug)]
pub enum Item {
    Block(String, Block),
    Fieldset(String, FieldSet),
}

/// What an item holds.
#[verifier::ext_equal]
pub enum ItemView {
    Block(Seq<char>, BlockView),
    Fieldset(Seq<char>, FieldSetView),
}

impl View for Item {
    type V = ItemView;

    open spec fn view(&self) -> ItemView {
        match self {
            Item::Block(name, b) => ItemView::Block(name@, b@),
            Item::Fieldset(name, f) => ItemView::Fieldset(name@, f@),
        }
    }
}

impl ItemView {
    /// The item's name.
    pub open spec fn name(self) -> Seq<char> {
        match self {
            ItemView::Block(name, _) => name,
            ItemView::Fieldset(name, _) => name,
        }
    }

    /// The item's kind and name.
    pub open spec fn text(self) -> Seq<char> {
        match self {
            ItemView::Block(name, _) => "block '"@ + name + "'"@,
            ItemView::Fieldset(name, _) => "fieldset '"@ + name + "'"@,
        }
    }
}

impl Item {
    /// The item's name.
    pub fn name(&self) -> (r: &str)
        ensures
            r@ == self@.name(),
    {
        match self {
            Item::Block(name, _) => name.as_str(),
            Item::Fieldset(name, _) => name.as_str(),
        }
    }

    /// The item's kind and name.
    pub fn describe(&self) -> (r: String)
        ensures
            r@ == self@.text(),
    {
        match self {
            Item::Block(name, _) => "block '".to_owned().concat(name.as_str()).concat("'"),
            Item::Fieldset(name, _) => "fieldset '".to_owned().concat(name.as_str()).concat("'"),
        }
    }
}

/// Why a check cannot be made, or does not succeed.
#[derive(Debug)]
pub enum CheckCompatError {
    /// The pattern of the items to compare does not compile.
    InvalidInclude(regex::Error),
    /// The pattern of the items to leave out does not compile.
    InvalidExclude(regex::Error),
    /// The pattern of the main item does not compile.
    InvalidMain(regex::Error),
    /// No item matches the pattern of the main item.
    MainNotFound,
    /// No item is left to compare.
    NoItems,
    /// The items are not compatible.
    Incompatible,
}

impl CheckCompatError {
    /// The error in words.
    pub open spec fn text(self) -> Seq<char> {
        match self {
            CheckCompatError::InvalidInclude(_) => "invalid include regex"@,
            CheckCompatError::InvalidExclude(_) => "invalid exclude regex"@,
            CheckCompatError::InvalidMain(_) => "invalid main regex"@,
            CheckCompatError::MainNotFound => "Failed to find main"@,
            CheckCompatError::NoItems => "found no items to include"@,
            CheckCompatError::Incompatible => "Incompatibilities were detected"@,
        }
    }

    /// The error in words.
    pub fn describe(&self) -> (r: &str)
        ensures
            r@ == self.text(),
    {
        match self {
            CheckCompatError::InvalidInclude(_) => "invalid include regex",
            CheckCompatError::InvalidExclude(_) => "invalid exclude regex",
            CheckCompatError::InvalidMain(_) => "invalid main regex",
            CheckCompatError::MainNotFound => "Failed to find main",
            CheckCompatError::NoItems => "found no items to include",
            CheckCompatError::Incompatible => "Incompatibilities were detected",
        }
    }
}

/// Whether an item is taken: it is included and not excluded.
pub open spec fn taken(
    wanted: Seq<char>,
    exclude: Option<Seq<char>>,
    name: Seq<char>,
) -> bool {
    regex_matches(wanted, name) && !(exclude is Some && regex_matches(exclude->0, name))
}

/// For each name of a map, whether it is taken.
pub open spec fn taken_of<V>(
    wanted: Seq<char>,
    exclude: Option<Seq<char>>,
    m: Entries<V>,
) -> Seq<bool> {
    m.map_values(|e: (Seq<char>, V)| taken(wanted, exclude, e.0))
}

/// The places of the entries that are taken, as items.
pub open spec fn picked<V>(
    m: Entries<V>,
    hits: Seq<bool>,
    make: spec_fn((Seq<char>, V)) -> ItemView,
) -> Seq<ItemView>
    decreases m.len(),
{
    if m.len() == 0 {
        seq![]
    } else {
        picked(m.drop_last(), hits, make) + one_if(hits[m.len() - 1], make(m.last()))
    }
}

/// The item of a block.
pub open spec fn block_item() -> spec_fn((Seq<char>, BlockView)) -> ItemView {
    |e: (Seq<char>, BlockView)| ItemView::Block(e.0, e.1)
}

/// The item of a fieldset.
pub open spec fn fieldset_item() -> spec_fn((Seq<char>, FieldSetView)) -> ItemView {
    |e: (Seq<char>, FieldSetView)| ItemView::Fieldset(e.0, e.1)
}

/// The blocks that are taken and then the fieldsets, each in the order of their
/// names.
pub open spec fn picked_items(
    ir: IrView,
    block_hits: Seq<bool>,
    fieldset_hits: Seq<bool>,
) -> Seq<ItemView> {
    picked(ir.blocks, block_hits, block_item()) + picked(
        ir.fieldsets,
        fieldset_hits,
        fieldset_item(),
    )
}

/// The items whose names match `wanted` and do not match `exclude`.
pub open spec fn selection(ir: IrView, wanted: Seq<char>, exclude: Option<Seq<char>>) -> Seq<
    ItemView,
> {
    picked_items(
        ir,
        taken_of(wanted, exclude, ir.blocks),
        taken_of(wanted, exclude, ir.fieldsets),
    )
}

/// The items that are hit: the blocks and then the fieldsets, each in the order
/// of their names.
pub fn pick_items(ir: &IR, block_hits: &Vec<bool>, fieldset_hits: &Vec<bool>) -> (r: Vec<Item>)
    requires
        block_hits@.len() == ir@.blocks.len(),
        fieldset_hits@.len() == ir@.fieldsets.len(),
    ensures
        views(r@) == picked_items(ir@, block_hits@, fieldset_hits@),
{
    let mut items: Vec<Item> = Vec::new();
    let ghost blocks = ir@.blocks;
    let ghost sets = ir@.fieldsets;
    assert(views(items@) =~= picked(blocks.take(0), block_hits@, block_item()));
    let mut i: usize = 0;
    while i < ir.blocks.len()
        invariant
            i <= blocks.len(),
            blocks == ir@.blocks,
            block_hits@.len() == blocks.len(),
            views(items@) == picked(blocks.take(i as int), block_hits@, block_item()),
        decreases blocks.len() - i,
    {
        let ghost before = items@;
        if block_hits[i] {
            items.push(
                Item::Block(ir.blocks.key_at(i).clone(), ir.blocks.value_at(i).duplicate()),
            );
        }
        proof {
            let now = blocks.take(i + 1);
            assert(now.drop_last() =~= blocks.take(i as int));
            assert(now.last() == blocks[i as int]);
            assert(views(items@) =~= views(before) + one_if(
                block_hits@[i as int],
                block_item()(blocks[i as int]),
            ));
            assert(views(items@) =~= picked(now, block_hits@, block_item()));
        }
        i += 1;
    }
    assert(blocks.take(i as int) =~= blocks);
    let ghost head = views(items@);
    assert(head + picked(sets.take(0), fieldset_hits@, fieldset_item()) =~= head);
    let mut k: usize = 0;
    while k < ir.fieldsets.len()
        invariant
            k <= sets.len(),
            sets == ir@.fieldsets,
            fieldset_hits@.len() == sets.len(),
            views(items@) == head + picked(
                sets.take(k as int),
                fieldset_hits@,
                fieldset_item(),
            ),
        decreases sets.len() - k,
    {
        let ghost before = items@;
        if fieldset_hits[k] {
            items.push(
                Item::Fieldset(
                    ir.fieldsets.key_at(k).clone(),
                    ir.fieldsets.value_at(k).duplicate(),
                ),
            );
        }
        proof {
            let now = sets.take(k + 1);
            assert(now.drop_last() =~= sets.take(k as int));
            assert(now.last() == sets[k as int]);
            assert(views(items@) =~= views(before) + one_if(
                fieldset_hits@[k as int],
                fieldset_item()(sets[k as int]),
            ));
            assert(views(items@) =~= head + picked(now, fieldset_hits@, fieldset_item()));
        }
        k += 1;
    }
    assert(sets.take(k as int) =~= sets);
    items
}

/// The pattern of an optional compiled expression.
pub open spec fn opt_pattern(re: Option<&regex::Regex>) -> Option<Seq<char>> {
    match re {
        Some(x) => Some(regex_pattern(*x)),
        None => None,
    }
}

/// Whether a name is taken.
fn takes(wanted: &regex::Regex, exclude: Option<&regex::Regex>, name: &str) -> (r: bool)
    ensures
        r == taken(regex_pattern(*wanted), opt_pattern(exclude), name@),
{
    let included = wanted.is_match(name);
    let excluded = match exclude {
        Some(x) => x.is_match(name),
        None => false,
    };
    included && !excluded
}

/// The items whose names match `wanted` and do not match `exclude`.
pub fn find_all(ir: &IR, wanted: &regex::Regex, exclude: Option<&regex::Regex>) -> (r: Vec<Item>)
    ensures
        views(r@) == selection(ir@, regex_pattern(*wanted), opt_pattern(exclude)),
{
    let ghost inc = regex_pattern(*wanted);
    let ghost exc = opt_pattern(exclude);
    let mut block_hits: Vec<bool> = Vec::new();
    let mut i: usize = 0;
    while i < ir.blocks.len()
        invariant
            i <= ir@.blocks.len(),
            inc == regex_pattern(*wanted),
            exc == opt_pattern(exclude),
            block_hits@ == taken_of(inc, exc, ir@.blocks).take(i as int),
        decreases ir@.blocks.len() - i,
    {
        block_hits.push(takes(wanted, exclude, ir.blocks.key_at(i).as_str()));
        i += 1;
        assert(block_hits@ =~= taken_of(inc, exc, ir@.blocks).take(i as int));
    }
    let mut fieldset_hits: Vec<bool> = Vec::new();
    let mut k: usize = 0;
    while k < ir.fieldsets.len()
        invariant
            k <= ir@.fieldsets.len(),
            inc == regex_pattern(*wanted),
            exc == opt_pattern(exclude),
            fieldset_hits@ == taken_of(inc, exc, ir@.fieldsets).take(k as int),
        decreases ir@.fieldsets.len() - k,
    {
        fieldset_hits.push(takes(wanted, exclude, ir.fieldsets.key_at(k).as_str()));
        k += 1;
        assert(fieldset_hits@ =~= taken_of(inc, exc, ir@.fieldsets).take(k as int));
    }
    assert(block_hits@ =~= taken_of(inc, exc, ir@.blocks));
    assert(fieldset_hits@ =~= taken_of(inc, exc, ir@.fieldsets));
    pick_items(ir, &block_hits, &fieldset_hits)
}

/// The pattern that a whole name has to match.
pub open spec fn anchored(pattern: Seq<char>) -> Seq<char> {
    "^"@ + pattern + "$"@
}

/// Why the anchored pattern does not compile, if it does not.
pub open spec fn anchored_failure(pattern: Seq<char>) -> Option<regex::Error> {
    regex_failure(anchored(pattern), usize::BITS)
}

/// Compiles a pattern that a whole name has to match.
fn compile_anchored(pattern: &str) -> (r: Result<regex::Regex, regex::Error>)
    ensures
        match r {
            Ok(re) => anchored_failure(pattern@) is None && regex_pattern(re) == anchored(pattern@),
            Err(e) => anchored_failure(pattern@) == Some(e),
        },
{
    let text = "^".to_owned().concat(pattern).concat("$");
    regex::Regex::new(text.as_str())
}

/// The first item whose whole name matches `name`, if `name` compiles.
pub open spec fn found(ir: IrView, name: Seq<char>) -> Result<Option<ItemView>, regex::Error> {
    match anchored_failure(name) {
        Some(e) => Err(e),
        None => {
            let all = selection(ir, anchored(name), None);
            Ok(
                if all.len() == 0 {
                    None
                } else {
                    Some(all[0])
                },
            )
        },
    }
}

/// The first item whose whole name matches `name`.
pub fn find(ir: &IR, name: &str) -> (r: Result<Option<Item>, regex::Error>)
    ensures
        match r {
            Ok(Some(item)) => found(ir@, name@) == Ok::<_, regex::Error>(Some(item@)),
            Ok(None) => found(ir@, name@) == Ok::<_, regex::Error>(None::<ItemView>),
            Err(e) => found(ir@, name@) == Err::<Option<ItemView>, _>(e),
        },
        forall|p: Seq<char>| #[trigger]
            asks_whole(p, name@) ==> match r {
                Ok(Some(item)) => failure(p) is None && is_first_match(ir@, p, item@),
                Ok(None) => failure(p) is None && no_hit(ir@.blocks, p) && no_hit(
                    ir@.fieldsets,
                    p,
                ),
                Err(e) => failure(p) == Some(e),
            },
{
    proof {
        assert forall|p: Seq<char>| #[trigger] asks_whole(p, name@) implies match found(
            ir@,
            name@,
        ) {
            Ok(Some(item)) => failure(p) is None && is_first_match(ir@, p, item),
            Ok(None) => failure(p) is None && no_hit(ir@.blocks, p) && no_hit(ir@.fieldsets, p),
            Err(e) => failure(p) == Some(e),
        } by {
            lemma_found(ir@, name@, p);
        }
    }
    match compile_anchored(name) {
        Ok(re) => {
            let mut all = find_all(ir, &re, None);
            let ghost items = views(all@);
            assert(items == selection(ir@, anchored(name@), None));
            if all.len() == 0 {
                Ok(None)
            } else {
                assert(items[0] == all@[0]@);
                Ok(Some(all.remove(0)))
            }
        },
        Err(e) => Err(e),
    }
}

/// The main item and the items to compare with it: the main item is the one that
/// was asked for, else the first of all, which is then not compared with itself.
pub open spec fn arranged(asked: Option<Option<ItemView>>, all: Seq<ItemView>) -> Result<
    (ItemView, Seq<ItemView>),
    CheckCompatError,
> {
    match asked {
        Some(Some(main)) => Ok((main, all)),
        Some(None) => Err(CheckCompatError::MainNotFound),
        None => if all.len() == 0 {
            Err(CheckCompatError::NoItems)
        } else {
            Ok((all[0], all.skip(1)))
        },
    }
}

/// The view of a main item that may have been asked for and may have been found.
pub open spec fn asked_view(asked: Option<Option<Item>>) -> Option<Option<ItemView>> {
    match asked {
        Some(Some(item)) => Some(Some(item@)),
        Some(None) => Some(None),
        None => None,
    }
}

/// The view of an arrangement.
pub open spec fn arrangement_view(r: Result<(Item, Vec<Item>), CheckCompatError>) -> Result<
    (ItemView, Seq<ItemView>),
    CheckCompatError,
> {
    match r {
        Ok((main, rest)) => Ok((main@, views(rest@))),
        Err(e) => Err(e),
    }
}

/// Whether `r` is the arrangement `a`.
pub open spec fn is_arrangement(
    r: Result<(Item, Vec<Item>), CheckCompatError>,
    a: Result<(ItemView, Seq<ItemView>), CheckCompatError>,
) -> bool {
    match r {
        Ok((main, rest)) => a == Ok::<_, CheckCompatError>((main@, views(rest@))),
        Err(e) => a == Err::<(ItemView, Seq<ItemView>), _>(e),
    }
}

/// Arranges the items for the comparison.
pub fn arrange(asked: Option<Option<Item>>, all: Vec<Item>) -> (r: Result<
    (Item, Vec<Item>),
    CheckCompatError,
>)
    ensures
        is_arrangement(r, arranged(asked_view(asked), views(all@))),
{
    match asked {
        Some(Some(main)) => Ok((main, all)),
        Some(None) => Err(CheckCompatError::MainNotFound),
        None => {
            if all.len() == 0 {
                Err(CheckCompatError::NoItems)
            } else {
                let ghost items = views(all@);
                let mut all = all;
                let main = all.remove(0);
                assert(views(all@) =~= items.skip(1));
                Ok((main, all))
            }
        },
    }
}

/// What is compared with what, for the given patterns.
pub open spec fn listing(
    ir: IrView,
    wanted: Seq<char>,
    exclude: Option<Seq<char>>,
    main: Option<Seq<char>>,
) -> Result<(ItemView, Seq<ItemView>), CheckCompatError> {
    if anchored_failure(wanted) is Some {
        Err(CheckCompatError::InvalidInclude(anchored_failure(wanted)->0))
    } else if exclude is Some && anchored_failure(exclude->0) is Some {
        Err(CheckCompatError::InvalidExclude(anchored_failure(exclude->0)->0))
    } else {
        let leave_out = match exclude {
            Some(x) => Some(anchored(x)),
            None => None,
        };
        let all = selection(ir, anchored(wanted), leave_out);
        match main {
            Some(m) => match found(ir, m) {
                Ok(item) => arranged(Some(item), all),
                Err(e) => Err(CheckCompatError::InvalidMain(e)),
            },
            None => arranged(None, all),
        }
    }
}

/// The main item and the items to compare with it.
pub fn get_list(ir: &IR, check: &CheckCompat) -> (r: Result<(Item, Vec<Item>), CheckCompatError>)
    ensures
        is_arrangement(
            r,
            listing(ir@, check.included@, opt_chars(check.exclude), opt_chars(check.main)),
        ),
        forall|w: Seq<char>, x: Option<Seq<char>>, m: Option<Seq<char>>|
            #![trigger
                asks_whole(w, check.included@),
                asks_whole_opt(x, opt_chars(check.exclude)),
                asks_whole_opt(m, opt_chars(check.main))]
            asks_whole(w, check.included@) && asks_whole_opt(x, opt_chars(check.exclude))
                && asks_whole_opt(m, opt_chars(check.main)) ==> lists(
                ir@,
                w,
                x,
                m,
                arrangement_view(r),
            ),
{
    proof {
        let all = listing(ir@, check.included@, opt_chars(check.exclude), opt_chars(check.main));
        assert forall|w: Seq<char>, x: Option<Seq<char>>, m: Option<Seq<char>>|
            #![trigger
                asks_whole(w, check.included@),
                asks_whole_opt(x, opt_chars(check.exclude)),
                asks_whole_opt(m, opt_chars(check.main))]
            asks_whole(w, check.included@) && asks_whole_opt(x, opt_chars(check.exclude))
                && asks_whole_opt(m, opt_chars(check.main)) implies lists(ir@, w, x, m, all) by {
            lemma_lists(
                ir@,
                check.included@,
                opt_chars(check.exclude),
                opt_chars(check.main),
                w,
                x,
                m,
            );
        }
    }
    let wanted = match compile_anchored(check.included.as_str()) {
        Ok(re) => re,
        Err(e) => {
            return Err(CheckCompatError::InvalidInclude(e));
        },
    };
    let exclude = match &check.exclude {
        Some(pattern) => match compile_anchored(pattern.as_str()) {
            Ok(re) => Some(re),
            Err(e) => {
                return Err(CheckCompatError::InvalidExclude(e));
            },
        },
        None => None,
    };
    let all = find_all(ir, &wanted, exclude.as_ref());
    match &check.main {
        Some(main) => match find(ir, main.as_str()) {
            Ok(item) => arrange(Some(item), all),
            Err(e) => Err(CheckCompatError::InvalidMain(e)),
        },
        None => arrange(None, all),
    }
}

/// One error of a comparison, with the names of what is compared.
pub open spec fn error_line(l: Seq<char>, r: Seq<char>, error: Seq<char>) -> Seq<char> {
    l + " <=> "@ + r + ": "@ + error
}

/// The lines of the errors of two blocks.
pub open spec fn block_line(l: Seq<char>, r: Seq<char>) -> spec_fn(BlockErrorView) -> Seq<char> {
    |e: BlockErrorView| error_line(l, r, e.text())
}

/// The lines of the errors of two fieldsets.
pub open spec fn fieldset_line(l: Seq<char>, r: Seq<char>) -> spec_fn(FieldSetErrorView) -> Seq<
    char,
> {
    |e: FieldSetErrorView| error_line(l, r, e.text())
}

/// Whether the comparison of two items comes to an end.
pub open spec fn pair_comparable(ir: IrView, main: ItemView, other: ItemView) -> bool {
    match (main, other) {
        (ItemView::Block(_, l), ItemView::Block(_, r)) => blocks_comparable(ir, l, r),
        _ => true,
    }
}

/// The lines that the comparison of two items gives.
pub open spec fn pair_lines(ir: IrView, main: ItemView, other: ItemView) -> Seq<Seq<char>> {
    match (main, other) {
        (ItemView::Block(ln, l), ItemView::Block(rn, r)) => block_errors(
            ir,
            l,
            r,
            CheckLevel::Descriptions,
        ).map_values(block_line(ln, rn)),
        (ItemView::Fieldset(ln, l), ItemView::Fieldset(rn, r)) => fieldset_errors(
            l,
            r,
            CheckLevel::Descriptions,
        ).map_values(fieldset_line(ln, rn)),
        _ => seq![
            main.text() + " '"@ + main.name() + "' != "@ + other.text() + " '"@ + other.name()
                + "'"@,
        ],
    }
}

/// Whether two items count as compatible: a block and a fieldset are reported,
/// but do not count against the check.
pub open spec fn pair_agrees(ir: IrView, main: ItemView, other: ItemView) -> bool {
    match (main, other) {
        (ItemView::Block(_, l), ItemView::Block(_, r)) => block_errors(
            ir,
            l,
            r,
            CheckLevel::Descriptions,
        ).len() == 0,
        (ItemView::Fieldset(_, l), ItemView::Fieldset(_, r)) => fieldset_errors(
            l,
            r,
            CheckLevel::Descriptions,
        ).len() == 0,
        _ => true,
    }
}

/// The lines that each item gives.
pub open spec fn lines_from(ir: IrView, main: ItemView) -> spec_fn(ItemView) -> Seq<Seq<char>> {
    |other: ItemView| pair_lines(ir, main, other)
}

/// How many of the items are compared: all before the first one whose comparison
/// does not come to an end.
pub open spec fn reach(ir: IrView, main: ItemView, rest: Seq<ItemView>) -> nat
    decreases rest.len(),
{
    if rest.len() == 0 || !pair_comparable(ir, main, rest[0]) {
        0
    } else {
        1 + reach(ir, main, rest.skip(1))
    }
}

/// The outcome of a check.
#[derive(Debug)]
pub struct CompatReport {
    /// What was found, for information.
    pub info: Vec<String>,
    /// The differences, in words.
    pub errors: Vec<String>,
    /// Whether the items compared are compatible.
    pub ok: bool,
    /// Whether an item could not be compared: a block or a fieldset that is
    /// referred to is missing, or blocks are nested without end. No item behind it
    /// is compared.
    pub broken: bool,
}

/// What a report holds.
#[verifier::ext_equal]
pub struct CompatReportView {
    pub info: Seq<Seq<char>>,
    pub errors: Seq<Seq<char>>,
    pub ok: bool,
    pub broken: bool,
}

impl View for CompatReport {
    type V = CompatReportView;

    open spec fn view(&self) -> CompatReportView {
        CompatReportView {
            info: all_chars(self.info@),
            errors: all_chars(self.errors@),
            ok: self.ok,
            broken: self.broken,
        }
    }
}

/// The line for an item that is compared with the main item.
pub open spec fn additional_line() -> spec_fn(ItemView) -> Seq<char> {
    |other: ItemView| "Found additional: "@ + other.name()
}

/// The report on the comparison of the main item with the rest.
pub open spec fn report_of(ir: IrView, main: ItemView, rest: Seq<ItemView>) -> CompatReportView {
    let compared = rest.take(reach(ir, main, rest) as int);
    CompatReportView {
        info: seq!["Found main: "@ + main.name()] + rest.map_values(additional_line()),
        errors: gather(compared, lines_from(ir, main)),
        ok: forall|i: int|
            0 <= i < compared.len() ==> pair_agrees(ir, main, #[trigger] compared[i]),
        broken: compared.len() < rest.len(),
    }
}

/// Whether the first `n` items can be compared with the main item.
#[verifier::opaque]
spec fn comparable_to(ir: IrView, main: ItemView, items: Seq<ItemView>, n: int) -> bool {
    forall|i: int| 0 <= i < n ==> pair_comparable(ir, main, #[trigger] items[i])
}

/// Whether the first `n` items count as compatible with the main item.
#[verifier::opaque]
spec fn agrees_to(ir: IrView, main: ItemView, items: Seq<ItemView>, n: int) -> bool {
    forall|i: int| 0 <= i < n ==> pair_agrees(ir, main, #[trigger] items[i])
}

/// Nothing stands against no items.
proof fn lemma_none_compared(ir: IrView, main: ItemView, items: Seq<ItemView>)
    ensures
        comparable_to(ir, main, items, 0),
        agrees_to(ir, main, items, 0),
{
    reveal(comparable_to);
    reveal(agrees_to);
}

/// One item more counts as that item does.
proof fn lemma_one_compared(ir: IrView, main: ItemView, items: Seq<ItemView>, n: int)
    requires
        0 <= n < items.len(),
    ensures
        comparable_to(ir, main, items, n + 1) == (comparable_to(ir, main, items, n)
            && pair_comparable(ir, main, items[n])),
        agrees_to(ir, main, items, n + 1) == (agrees_to(ir, main, items, n) && pair_agrees(
            ir,
            main,
            items[n],
        )),
{
    reveal(comparable_to);
    reveal(agrees_to);
}

/// All before the reach can be compared, and what stands at it cannot.
proof fn lemma_reach(ir: IrView, main: ItemView, rest: Seq<ItemView>, n: int)
    requires
        0 <= n <= rest.len(),
        comparable_to(ir, main, rest, n),
        n < rest.len() ==> !pair_comparable(ir, main, rest[n]),
    ensures
        reach(ir, main, rest) == n,
    decreases rest.len(),
{
    reveal(comparable_to);
    if n > 0 {
        assert(pair_comparable(ir, main, rest[0]));
        let tail = rest.skip(1);
        assert forall|i: int| 0 <= i < n - 1 implies pair_comparable(
            ir,
            main,
            #[trigger] tail[i],
        ) by {
            assert(pair_comparable(ir, main, rest[i + 1]));
        }
        lemma_reach(ir, main, tail, n - 1);
    }
}

/// The outcome of a report, by how many items were compared.
proof fn lemma_outcome(ir: IrView, main: ItemView, rest: Seq<ItemView>, n: int)
    requires
        0 <= n <= rest.len(),
        comparable_to(ir, main, rest, n),
        n < rest.len() ==> !pair_comparable(ir, main, rest[n]),
    ensures
        report_of(ir, main, rest).errors == gather(rest.take(n), lines_from(ir, main)),
        report_of(ir, main, rest).ok == agrees_to(ir, main, rest, n),
        report_of(ir, main, rest).broken == (n < rest.len()),
{
    lemma_reach(ir, main, rest, n);
    reveal(agrees_to);
    let compared = rest.take(n);
    if agrees_to(ir, main, rest, n) {
        assert forall|i: int| 0 <= i < compared.len() implies pair_agrees(
            ir,
            main,
            #[trigger] compared[i],
        ) by {
            assert(pair_agrees(ir, main, rest[i]));
        }
    } else {
        let i = choose|i: int| 0 <= i < n && !pair_agrees(ir, main, #[trigger] rest[i]);
        assert(!pair_agrees(ir, main, compared[i]));
    }
}

/// Appends the lines of the errors of two blocks.
fn push_block_lines(lines: &mut Vec<String>, l: &str, r: &str, errors: &Vec<BlockError>)
    requires
        all_block_errors_proper(views(errors@)),
    ensures
        all_chars(final(lines)@) == all_chars(old(lines)@) + views(errors@).map_values(
            block_line(l@, r@),
        ),
{
    let ghost before = all_chars(lines@);
    let ghost more = views(errors@).map_values(block_line(l@, r@));
    assert(before =~= before + more.take(0));
    let mut i: usize = 0;
    while i < errors.len()
        invariant
            i <= errors@.len(),
            all_block_errors_proper(views(errors@)),
            more == views(errors@).map_values(block_line(l@, r@)),
            all_chars(lines@) == before + more.take(i as int),
        decreases errors@.len() - i,
    {
        let ghost so_far = lines@;
        assert(views(errors@)[i as int].proper());
        let text = errors[i].describe();
        lines.push(l.to_owned().concat(" <=> ").concat(r).concat(": ").concat(text.as_str()));
        assert(all_chars(lines@) =~= all_chars(so_far).push(more[i as int]));
        i += 1;
        assert(more.take(i as int) =~= more.take(i - 1).push(more[i - 1]));
        assert(all_chars(lines@) =~= before + more.take(i as int));
    }
    assert(more.take(i as int) =~= more);
}

/// Appends the lines of the errors of two fieldsets.
fn push_fieldset_lines(lines: &mut Vec<String>, l: &str, r: &str, errors: &Vec<FieldSetError>)
    requires
        all_fieldset_errors_proper(views(errors@)),
    ensures
        all_chars(final(lines)@) == all_chars(old(lines)@) + views(errors@).map_values(
            fieldset_line(l@, r@),
        ),
{
    let ghost before = all_chars(lines@);
    let ghost more = views(errors@).map_values(fieldset_line(l@, r@));
    assert(before =~= before + more.take(0));
    let mut i: usize = 0;
    while i < errors.len()
        invariant
            i <= errors@.len(),
            all_fieldset_errors_proper(views(errors@)),
            more == views(errors@).map_values(fieldset_line(l@, r@)),
            all_chars(lines@) == before + more.take(i as int),
        decreases errors@.len() - i,
    {
        let ghost so_far = lines@;
        assert(views(errors@)[i as int].proper());
        let text = errors[i].describe();
        lines.push(l.to_owned().concat(" <=> ").concat(r).concat(": ").concat(text.as_str()));
        assert(all_chars(lines@) =~= all_chars(so_far).push(more[i as int]));
        i += 1;
        assert(more.take(i as int) =~= more.take(i - 1).push(more[i - 1]));
        assert(all_chars(lines@) =~= before + more.take(i as int));
    }
    assert(more.take(i as int) =~= more);
}

/// Whether the comparison of two items comes to an end.
fn can_compare(ir: &IR, main: &Item, other: &Item) -> (r: bool)
    ensures
        r == pair_comparable(ir@, main@, other@),
{
    match (main, other) {
        (Item::Block(_, l), Item::Block(_, r)) => can_compare_blocks(ir, l, r),
        _ => true,
    }
}

/// Compares two items: appends the lines and gives whether they are compatible.
fn compare_pair(ir: &IR, main: &Item, other: &Item, lines: &mut Vec<String>) -> (r: bool)
    requires
        pair_comparable(ir@, main@, other@),
    ensures
        all_chars(final(lines)@) == all_chars(old(lines)@) + pair_lines(ir@, main@, other@),
        r == pair_agrees(ir@, main@, other@),
{
    match (main, other) {
        (Item::Block(ln, l), Item::Block(rn, r)) => {
            let errors = block_compat(ir, l, r, CheckLevel::Descriptions);
            proof {
                lemma_block_errors_proper(
                    ir@,
                    l@,
                    r@,
                    CheckLevel::Descriptions,
                    choose|depth: nat| #[trigger] blocks_meet(ir@, l@, r@, depth),
                );
            }
            push_block_lines(lines, ln.as_str(), rn.as_str(), &errors);
            assert(views(errors@).len() == errors@.len());
            errors.len() == 0
        },
        (Item::Fieldset(ln, l), Item::Fieldset(rn, r)) => {
            let errors = fieldset_compat(l, r, CheckLevel::Descriptions);
            proof {
                lemma_fieldset_errors_proper(l@, r@, CheckLevel::Descriptions);
            }
            push_fieldset_lines(lines, ln.as_str(), rn.as_str(), &errors);
            assert(views(errors@).len() == errors@.len());
            errors.len() == 0
        },
        _ => {
            let ghost before = lines@;
            let line = main.describe().concat(" '").concat(main.name()).concat("' != ").concat(
                other.describe().as_str(),
            ).concat(" '").concat(other.name()).concat("'");
            lines.push(line);
            assert(all_chars(lines@) =~= all_chars(before) + pair_lines(ir@, main@, other@));
            true
        },
    }
}

/// The lines on what was found.
fn found_lines(main: &Item, rest: &Vec<Item>) -> (r: Vec<String>)
    ensures
        all_chars(r@) == seq!["Found main: "@ + main@.name()] + views(rest@).map_values(
            additional_line(),
        ),
{
    let ghost items = views(rest@);
    let mut info: Vec<String> = Vec::new();
    info.push("Found main: ".to_owned().concat(main.name()));
    let ghost found_main = "Found main: "@ + main@.name();
    let ghost found_rest = items.map_values(additional_line());
    assert(all_chars(info@) =~= seq![found_main] + found_rest.take(0));
    let mut k: usize = 0;
    while k < rest.len()
        invariant
            k <= rest@.len(),
            items == views(rest@),
            found_rest == items.map_values(additional_line()),
            all_chars(info@) == seq![found_main] + found_rest.take(k as int),
        decreases rest@.len() - k,
    {
        let ghost before = info@;
        info.push("Found additional: ".to_owned().concat(rest[k].name()));
        assert(all_chars(info@) =~= all_chars(before).push(found_rest[k as int]));
        k += 1;
        assert(found_rest.take(k as int) =~= found_rest.take(k - 1).push(found_rest[k - 1]));
        assert(all_chars(info@) =~= seq![found_main] + found_rest.take(k as int));
    }
    assert(found_rest.take(k as int) =~= found_rest);
    info
}

/// Compares the main item with the rest.
#[verifier::spinoff_prover]
pub fn compare_all(ir: &IR, main: &Item, rest: &Vec<Item>) -> (r: CompatReport)
    ensures
        r@ == report_of(ir@, main@, views(rest@)),
{
    let info = found_lines(main, rest);
    let ghost items = views(rest@);
    let ghost f = lines_from(ir@, main@);
    let mut errors: Vec<String> = Vec::new();
    let mut ok: bool = true;
    let mut i: usize = 0;
    proof {
        lemma_none_compared(ir@, main@, items);
        assert(all_chars(errors@) =~= gather(items.take(0), f));
    }
    while i < rest.len()
        invariant_except_break
            i <= rest@.len(),
            items == views(rest@),
            f == lines_from(ir@, main@),
            all_chars(errors@) == gather(items.take(i as int), f),
            ok == agrees_to(ir@, main@, items, i as int),
            comparable_to(ir@, main@, items, i as int),
        ensures
            i <= rest@.len(),
            all_chars(errors@) == gather(items.take(i as int), f),
            ok == agrees_to(ir@, main@, items, i as int),
            comparable_to(ir@, main@, items, i as int),
            i < items.len() ==> !pair_comparable(ir@, main@, items[i as int]),
        decreases rest@.len() - i,
    {
        assert(items[i as int] == rest@[i as int]@);
        if !can_compare(ir, main, &rest[i]) {
            break;
        }
        let agrees = compare_pair(ir, main, &rest[i], &mut errors);
        ok = ok && agrees;
        proof {
            lemma_gather_step(items, f, i as int);
            lemma_one_compared(ir@, main@, items, i as int);
        }
        i += 1;
    }
    proof {
        lemma_outcome(ir@, main@, items, i as int);
    }
    CompatReport { info, errors, ok, broken: i < rest.len() }
}

/// Checks that the items of a register map that the patterns name are compatible
/// with one another.
pub fn check_compat(ir: &IR, args: &CheckCompat) -> (r: Result<CompatReport, CheckCompatError>)
    ensures
        match listing(ir@, args.included@, opt_chars(args.exclude), opt_chars(args.main)) {
            Ok((main, rest)) => r matches Ok(report) && report@ == report_of(ir@, main, rest),
            Err(e) => r == Err::<CompatReport, _>(e),
        },
{
    match get_list(ir, args) {
        Ok((main, rest)) => Ok(compare_all(ir, &main, &rest)),
        Err(e) => Err(e),
    }
}

impl CompatReport {
    /// Whether the check succeeds, if every item could be compared.
    pub fn verdict(&self) -> (r: Result<(), CheckCompatError>)
        requires
            !self.broken,
        ensures
            r == if self.ok {
                Ok::<(), CheckCompatError>(())
            } else {
                Err::<(), CheckCompatError>(CheckCompatError::Incompatible)
            },
    {
        if self.ok {
            Ok(())
        } else {
            Err(CheckCompatError::Incompatible)
        }
    }
}

} // verus!
