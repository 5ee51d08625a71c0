use chiptool::commands::compat::{
    array_compat, block_compat, block_item_compat, field_compat, fieldset_compat, find_item,
};
use chiptool::commands::compat_error::{
    fmt_access, ArrayError, BlockError, BlockItemError, FieldError, FieldSetError,
};
use chiptool::commands::nesting::{can_compare_blocks, can_compare_items};
use chiptool::ir::{
    Access, Array, BitOffset, BitRange, Block, BlockItem, BlockItemBlock, BlockItemInner,
    CursedArray, Field, FieldSet, Register, RegularArray, IR,
};
use chiptool::name_map::NameMap;
use chiptool::transform::common::CheckLevel;

fn regular(len: u32, stride: u32) -> Array {
    Array::Regular(RegularArray { len, stride })
}

fn cursed(offsets: &[u32]) -> Array {
    Array::Cursed(CursedArray { offsets: offsets.to_vec() })
}

fn field(name: &str, offset: u32, size: u32) -> Field {
    Field {
        name: name.to_string(),
        description: None,
        bit_offset: BitOffset::Regular(offset),
        bit_size: size,
        array: None,
        enumm: None,
    }
}

fn fieldset(fields: Vec<Field>) -> FieldSet {
    FieldSet { extends: None, description: None, bit_size: 32, fields }
}

fn register(name: &str, offset: u32, fieldset: Option<&str>) -> BlockItem {
    BlockItem {
        name: name.to_string(),
        description: None,
        array: None,
        byte_offset: offset,
        inner: BlockItemInner::Register(Register {
            access: Access::ReadWrite,
            bit_size: 32,
            fieldset: fieldset.map(|f| f.to_string()),
        }),
    }
}

fn nested(name: &str, offset: u32, block: &str) -> BlockItem {
    BlockItem {
        name: name.to_string(),
        description: None,
        array: None,
        byte_offset: offset,
        inner: BlockItemInner::Block(BlockItemBlock { block: block.to_string() }),
    }
}

fn block(items: Vec<BlockItem>) -> Block {
    Block { extends: None, description: None, items }
}

fn map_of(blocks: Vec<(&str, Block)>, fieldsets: Vec<(&str, FieldSet)>) -> IR {
    let mut ir = IR::new();
    let mut b = NameMap::new();
    for (name, value) in blocks {
        b = b.insert(name.to_string(), value);
    }
    let mut f = NameMap::new();
    for (name, value) in fieldsets {
        f = f.insert(name.to_string(), value);
    }
    ir.blocks = b;
    ir.fieldsets = f;
    ir
}

fn block_texts(errors: &[BlockError]) -> Vec<String> {
    errors.iter().map(|e| e.describe()).collect()
}

fn fieldset_texts(errors: &[FieldSetError]) -> Vec<String> {
    errors.iter().map(|e| e.describe()).collect()
}

fn text(s: &str) -> Option<String> {
    Some(s.to_string())
}

#[test]
fn equal_arrays_are_compatible() {
    assert_eq!(array_compat(&regular(4, 8), &regular(4, 8)), vec![]);
    assert_eq!(array_compat(&cursed(&[0, 4]), &cursed(&[0, 4])), vec![]);
}

#[test]
fn cursed_arrays_of_one_length_are_compatible() {
    assert_eq!(array_compat(&cursed(&[0, 4]), &cursed(&[8, 16])), vec![]);
}

#[test]
fn arrays_differ_in_length_then_stride() {
    assert_eq!(
        array_compat(&regular(4, 8), &regular(5, 16)),
        vec![ArrayError::Len(4, 5), ArrayError::Stride(8, 16)]
    );
}

#[test]
fn arrays_differ_in_kind() {
    let errors = array_compat(&regular(2, 8), &cursed(&[0, 8]));
    assert_eq!(errors, vec![ArrayError::Xor(regular(2, 8), cursed(&[0, 8]))]);
    assert_eq!(errors[0].describe(), "array type mismatch: lhs is regular, rhs is cursed");
    let errors = array_compat(&cursed(&[0, 8, 9]), &regular(2, 8));
    assert_eq!(errors.len(), 2);
    assert_eq!(errors[0].describe(), "array len mismatch: 3 != 2");
    assert_eq!(errors[1].describe(), "array type mismatch: lhs is cursed, rhs is regular");
}

#[test]
fn stride_in_words() {
    assert_eq!(ArrayError::Stride(4, 100).describe(), "stride mismatch: 4 != 100");
}

#[test]
fn fields_differ_in_array_description_and_enum() {
    let mut l = field("a", 0, 1);
    let mut r = field("a", 0, 1);
    l.array = Some(regular(2, 1));
    l.description = text("left");
    r.enumm = text("E");
    let errors = field_compat(&l, &r, CheckLevel::Descriptions);
    assert_eq!(
        errors,
        vec![
            FieldError::ArrayXor(true, false),
            FieldError::Description(text("left"), None),
            FieldError::Enum(None, text("E")),
        ]
    );
    assert_eq!(errors[0].describe(), "array types mismatch: lhs is an array, rhs is not");
    assert_eq!(errors[1].describe(), "description mismatch: 'Some(\"left\")' != 'None'");
    assert_eq!(errors[2].describe(), "enum mismatch: 'None' != 'Some(\"E\")'");
    assert_eq!(
        FieldError::ArrayXor(false, true).describe(),
        "array types mismatch: lhs is not an array, rhs is"
    );
}

#[test]
fn descriptions_are_left_to_the_closest_level() {
    let mut l = field("a", 0, 1);
    l.description = text("left");
    let r = field("a", 0, 1);
    assert_eq!(field_compat(&l, &r, CheckLevel::Names), vec![]);
    assert_eq!(field_compat(&l, &r, CheckLevel::Descriptions).len(), 1);
}

#[test]
fn array_errors_of_fields_go_through() {
    let mut l = field("a", 0, 1);
    let mut r = field("a", 0, 1);
    l.array = Some(regular(2, 1));
    r.array = Some(regular(3, 1));
    let errors = field_compat(&l, &r, CheckLevel::NoCheck);
    assert_eq!(errors, vec![FieldError::Array(ArrayError::Len(2, 3))]);
    assert_eq!(errors[0].describe(), "array len mismatch: 2 != 3");
}

#[test]
fn fieldsets_differ_in_their_heads() {
    let mut l = fieldset(vec![]);
    let mut r = fieldset(vec![]);
    l.extends = text("Base");
    r.bit_size = 16;
    r.description = text("right\n");
    let errors = fieldset_compat(&l, &r, CheckLevel::Descriptions);
    assert_eq!(
        fieldset_texts(&errors),
        vec![
            "extends mismatch: Some(\"Base\") != None",
            "size mismatch: 32 != 16",
            "description mismatch: 'None' != 'Some(\"right\\n\")'",
        ]
    );
}

#[test]
fn fields_pair_up_by_their_bits() {
    let l = fieldset(vec![field("a", 0, 4), field("b", 4, 4), field("c", 8, 1)]);
    let r = fieldset(vec![field("bb", 4, 4), field("a", 0, 4), field("c", 8, 2)]);
    let errors = fieldset_compat(&l, &r, CheckLevel::Names);
    assert_eq!(
        fieldset_texts(&errors),
        vec![
            "field at offset 4 with size 4 has name mismatch: 'b' != 'bb'",
            "rhs is missing field 'c'",
            "lhs is missing field 'c'",
        ]
    );
    assert_eq!(
        fieldset_texts(&fieldset_compat(&l, &r, CheckLevel::Layout)),
        vec!["rhs is missing field 'c'", "lhs is missing field 'c'"]
    );
}

#[test]
fn field_errors_carry_the_place() {
    let mut l = field("a", 6, 2);
    l.enumm = text("E");
    l.bit_offset = BitOffset::Cursed(vec![
        BitRange { first: 9, last: 9 },
        BitRange { first: 3, last: 4 },
    ]);
    let mut r = field("a", 6, 2);
    r.bit_offset = BitOffset::Cursed(vec![
        BitRange { first: 9, last: 9 },
        BitRange { first: 3, last: 4 },
    ]);
    let errors = fieldset_compat(&fieldset(vec![l]), &fieldset(vec![r]), CheckLevel::Layout);
    assert_eq!(
        fieldset_texts(&errors),
        vec!["a at offset 3 with size 2: enum mismatch: 'Some(\"E\")' != 'None'"]
    );
}

#[test]
fn bit_offsets_differ_in_their_runs() {
    let a = BitOffset::Cursed(vec![BitRange { first: 0, last: 1 }]);
    let b = BitOffset::Cursed(vec![BitRange { first: 0, last: 2 }]);
    assert!(a.same(&a));
    assert!(!a.same(&b));
    assert!(!a.same(&BitOffset::Regular(0)));
    assert!(!a.same(&BitOffset::Cursed(vec![])));
    assert_eq!(BitOffset::Cursed(vec![]).min_offset(), 0);
    assert_eq!(BitOffset::Regular(7).min_offset(), 7);
}

#[test]
fn tidy_fieldset_is_compatible_with_itself() {
    let s = fieldset(vec![field("a", 0, 4), field("b", 4, 4), field("c", 4, 2)]);
    assert_eq!(fieldset_compat(&s, &s, CheckLevel::Descriptions), vec![]);
}

#[test]
fn fieldset_with_two_names_for_the_same_bits_is_not_compatible_with_itself() {
    let s = fieldset(vec![field("a", 0, 4), field("b", 0, 4)]);
    let errors = fieldset_compat(&s, &s, CheckLevel::Names);
    assert_eq!(
        fieldset_texts(&errors),
        vec!["field at offset 0 with size 4 has name mismatch: 'b' != 'a'"]
    );
    assert_eq!(fieldset_compat(&s, &s, CheckLevel::Layout), vec![]);
}

#[test]
fn fieldsets_with_shared_bits_are_compatible_one_way_only() {
    let l = fieldset(vec![field("a", 0, 4)]);
    let r = fieldset(vec![field("a", 0, 4), field("b", 0, 4)]);
    assert_eq!(fieldset_compat(&l, &r, CheckLevel::Names), vec![]);
    assert_eq!(fieldset_compat(&r, &l, CheckLevel::Names).len(), 1);
    assert_eq!(fieldset_compat(&r, &r, CheckLevel::Names).len(), 1);
}

#[test]
fn compatibility_of_fieldsets_chains() {
    let a = fieldset(vec![field("a", 0, 4), field("b", 4, 1)]);
    let b = fieldset(vec![field("b", 4, 1), field("a", 0, 4)]);
    let c = fieldset(vec![field("a", 0, 4), field("b", 4, 1), field("a", 0, 4)]);
    assert_eq!(fieldset_compat(&a, &b, CheckLevel::Names), vec![]);
    assert_eq!(fieldset_compat(&b, &c, CheckLevel::Names), vec![]);
    assert_eq!(fieldset_compat(&a, &c, CheckLevel::Names), vec![]);
}

#[test]
fn levels_in_order() {
    let order = [
        CheckLevel::NoCheck,
        CheckLevel::Layout,
        CheckLevel::Names,
        CheckLevel::Descriptions,
    ];
    for (i, a) in order.iter().enumerate() {
        for (j, b) in order.iter().enumerate() {
            assert_eq!(a.includes_level(*b), i >= j);
        }
    }
}

#[test]
fn access_in_words() {
    assert_eq!(fmt_access(&Access::ReadWrite), "RW");
    assert_eq!(fmt_access(&Access::Read), "RO");
    assert_eq!(fmt_access(&Access::Write), "WO");
}

#[test]
fn blocks_differ_in_their_heads() {
    let ir = map_of(vec![], vec![]);
    let mut l = block(vec![]);
    let mut r = block(vec![]);
    l.description = text("l");
    r.extends = text("Base");
    assert!(can_compare_blocks(&ir, &l, &r));
    assert_eq!(
        block_texts(&block_compat(&ir, &l, &r, CheckLevel::Descriptions)),
        vec![
            "description mismatch: 'Some(\"l\")' != 'None'",
            "extends mismatch: 'None' != 'Some(\"Base\")'",
        ]
    );
    assert_eq!(block_compat(&ir, &l, &r, CheckLevel::Names).len(), 1);
}

#[test]
fn items_pair_up_by_their_offsets() {
    let ir = map_of(vec![], vec![]);
    let l = block(vec![register("A", 0, None), register("B", 4, None), register("C", 8, None)]);
    let r = block(vec![register("D", 12, None), register("BB", 4, None), register("A", 0, None)]);
    assert_eq!(
        block_texts(&block_compat(&ir, &l, &r, CheckLevel::Names)),
        vec![
            "name mismatch for item at offset 4: 'B' != 'BB'",
            "rhs is missing inner item 'C'",
            "lhs is missing inner item 'D'",
        ]
    );
}

#[test]
fn first_item_at_an_offset_counts() {
    let items = vec![register("A", 0, None), register("B", 4, None), register("C", 4, None)];
    assert_eq!(find_item(&items, 4), Some(1));
    assert_eq!(find_item(&items, 8), None);
}

#[test]
fn registers_differ() {
    let ir = map_of(vec![], vec![("F", fieldset(vec![])), ("G", fieldset(vec![field("x", 0, 1)]))]);
    let mut l = register("A", 0, Some("F"));
    l.description = text("d");
    l.array = Some(regular(2, 4));
    let mut r = register("A", 0, Some("G"));
    r.inner = BlockItemInner::Register(Register {
        access: Access::Read,
        bit_size: 8,
        fieldset: text("G"),
    });
    assert!(can_compare_items(&ir, &l, &r));
    let errors = block_item_compat(&ir, &l, &r, CheckLevel::Descriptions);
    let texts: Vec<String> = errors.iter().map(|e| e.describe()).collect();
    assert_eq!(
        texts,
        vec![
            "description mismatch: 'Some(\"d\")' != 'None'",
            "array mismatch: lhs is array, rhs is not",
            "register access mismatch: RW != RO",
            "register size mismatch: 32 != 8",
            "field set mismatch: lhs is missing field 'x'",
        ]
    );
    let back = block_item_compat(&ir, &r, &l, CheckLevel::Layout);
    assert_eq!(back[0], BlockItemError::ArrayXor(false, true));
    assert_eq!(back[0].describe(), "array mismatch: lhs is not array, rhs is");
}

#[test]
fn fieldset_on_one_side_only() {
    let ir = map_of(vec![], vec![("F", fieldset(vec![]))]);
    let l = register("A", 0, Some("F"));
    let r = register("A", 0, None);
    let errors = block_item_compat(&ir, &l, &r, CheckLevel::Layout);
    assert_eq!(errors, vec![BlockItemError::FieldSetXor(true, false)]);
    assert_eq!(errors[0].describe(), "fieldset mismatch: lhs has fieldset, rhs does not");
    let errors = block_item_compat(&ir, &r, &l, CheckLevel::Layout);
    assert_eq!(errors[0].describe(), "fieldset mismatch: lhs doesn't have fieldset, rhs does");
}

#[test]
fn register_against_nested_block() {
    let ir = map_of(vec![("B", block(vec![]))], vec![]);
    let l = nested("A", 0, "B");
    let r = register("A", 0, None);
    let errors = block_item_compat(&ir, &l, &r, CheckLevel::Layout);
    assert_eq!(errors, vec![BlockItemError::InnerXor(true)]);
    assert_eq!(
        errors[0].describe(),
        "inner type mismatch: lhs is nested block, rhs is register"
    );
    let errors = block_item_compat(&ir, &r, &l, CheckLevel::Layout);
    assert_eq!(
        errors[0].describe(),
        "inner type mismatch: lhs is register, rhs is nested block"
    );
}

#[test]
fn arrays_of_items_differ() {
    let ir = map_of(vec![], vec![]);
    let mut l = register("A", 0, None);
    let mut r = register("A", 0, None);
    l.array = Some(regular(2, 4));
    r.array = Some(regular(2, 8));
    let errors = block_item_compat(&ir, &l, &r, CheckLevel::Layout);
    assert_eq!(errors[0].describe(), "array mismatch: stride mismatch: 4 != 8");
    assert_eq!(errors.len(), 1);
}

#[test]
fn nested_blocks_are_followed() {
    let ir = map_of(
        vec![
            ("X", block(vec![register("R", 0, None)])),
            ("Y", block(vec![register("S", 0, None)])),
        ],
        vec![],
    );
    let l = block(vec![nested("N", 16, "X")]);
    let r = block(vec![nested("N", 16, "Y")]);
    assert!(can_compare_blocks(&ir, &l, &r));
    assert_eq!(
        block_texts(&block_compat(&ir, &l, &r, CheckLevel::Names)),
        vec![
            "inner item N at offset 16: inner block mismatch: name mismatch for item at offset 0: \
             'R' != 'S'"
        ]
    );
    assert_eq!(block_compat(&ir, &l, &r, CheckLevel::Layout), vec![]);
}

#[test]
fn missing_references_stop_a_comparison() {
    let ir = map_of(vec![("X", block(vec![]))], vec![("F", fieldset(vec![]))]);
    let l = block(vec![nested("N", 0, "X")]);
    let r = block(vec![nested("N", 0, "Gone")]);
    assert!(!can_compare_blocks(&ir, &l, &r));
    let l = block(vec![register("N", 0, Some("F"))]);
    let r = block(vec![register("N", 0, Some("Gone"))]);
    assert!(!can_compare_blocks(&ir, &l, &r));
    let r = block(vec![register("N", 0, None)]);
    assert!(can_compare_blocks(&ir, &l, &r));
}

#[test]
fn endless_nesting_stops_a_comparison() {
    let ir = map_of(
        vec![
            ("X", block(vec![nested("N", 0, "Y")])),
            ("Y", block(vec![nested("N", 0, "X")])),
            ("Z", block(vec![nested("N", 4, "Z")])),
        ],
        vec![],
    );
    let x = block(vec![nested("N", 0, "Y")]);
    let z = block(vec![nested("N", 4, "Z")]);
    assert!(!can_compare_blocks(&ir, &x, &x));
    assert!(!can_compare_blocks(&ir, &z, &z));
    assert!(can_compare_blocks(&ir, &x, &z));
    assert!(!can_compare_items(&ir, &nested("N", 0, "Y"), &nested("N", 0, "X")));
}

#[test]
fn tidy_block_is_compatible_with_itself() {
    let ir = map_of(
        vec![("X", block(vec![register("R", 0, Some("F")), register("S", 4, None)]))],
        vec![("F", fieldset(vec![field("a", 0, 1), field("b", 1, 1)]))],
    );
    let b = block(vec![nested("N", 0, "X"), register("R", 8, Some("F"))]);
    assert!(can_compare_blocks(&ir, &b, &b));
    assert_eq!(block_compat(&ir, &b, &b, CheckLevel::Descriptions), vec![]);
}

#[test]
fn blocks_with_shared_offsets_are_compatible_one_way_only() {
    let ir = map_of(vec![], vec![]);
    let l = block(vec![register("A", 0, None)]);
    let r = block(vec![register("A", 0, None), register("B", 0, None)]);
    assert_eq!(block_compat(&ir, &l, &r, CheckLevel::Names), vec![]);
    assert_eq!(
        block_texts(&block_compat(&ir, &r, &l, CheckLevel::Names)),
        vec!["name mismatch for item at offset 0: 'B' != 'A'"]
    );
    assert_eq!(block_compat(&ir, &r, &r, CheckLevel::Names).len(), 1);
}

#[test]
fn compatibility_of_blocks_chains() {
    let ir = map_of(
        vec![
            ("X", block(vec![register("R", 0, None)])),
            ("Y", block(vec![register("R", 0, None)])),
        ],
        vec![],
    );
    let a = block(vec![nested("N", 0, "X")]);
    let b = block(vec![nested("N", 0, "Y")]);
    let c = block(vec![nested("N", 0, "X"), nested("N", 0, "Y")]);
    assert_eq!(block_compat(&ir, &a, &b, CheckLevel::Names), vec![]);
    assert_eq!(block_compat(&ir, &b, &c, CheckLevel::Names), vec![]);
    assert_eq!(block_compat(&ir, &a, &c, CheckLevel::Names), vec![]);
}

#[test]
fn looser_checks_find_no_more() {
    let ir = map_of(
        vec![("X", block(vec![register("R", 0, Some("F"))]))],
        vec![("F", fieldset(vec![field("a", 0, 1)])), ("G", fieldset(vec![field("b", 0, 1)]))],
    );
    let l = block(vec![nested("N", 0, "X"), register("A", 4, Some("F"))]);
    let mut r = block(vec![nested("N", 0, "X"), register("A", 4, Some("G"))]);
    r.description = text("r");
    let order = [
        CheckLevel::NoCheck,
        CheckLevel::Layout,
        CheckLevel::Names,
        CheckLevel::Descriptions,
    ];
    let counts: Vec<usize> =
        order.iter().map(|level| block_compat(&ir, &l, &r, *level).len()).collect();
    assert_eq!(counts, vec![0, 0, 1, 2]);
}

fn missing(errors: &[FieldSetError]) -> (Vec<&str>, Vec<&str>) {
    let mut left = vec![];
    let mut right = vec![];
    for e in errors {
        match e {
            FieldSetError::LhsMissingfield(name) => left.push(name.as_str()),
            FieldSetError::RhsMissingField(name) => right.push(name.as_str()),
            _ => {}
        }
    }
    (left, right)
}

#[test]
fn swapped_fieldsets_give_as_many_errors() {
    let mut a = field("a", 0, 1);
    a.enumm = text("E");
    a.array = Some(regular(2, 1));
    let mut b = field("b", 0, 1);
    b.array = Some(cursed(&[0, 1, 2]));
    let l = fieldset(vec![field("p", 9, 1), a, field("q", 8, 1), field("s", 4, 1)]);
    let mut r = fieldset(vec![field("t", 4, 1), field("u", 5, 1), b]);
    r.bit_size = 16;
    let there = fieldset_compat(&l, &r, CheckLevel::Descriptions);
    let back = fieldset_compat(&r, &l, CheckLevel::Descriptions);
    assert_eq!(there.len(), 9);
    assert_eq!(back.len(), 9);
    assert_eq!(missing(&there), (vec!["u"], vec!["p", "q"]));
    assert_eq!(missing(&back), (vec!["p", "q"], vec!["u"]));
}

#[test]
fn order_of_the_right_fields_matters_little() {
    let l = fieldset(vec![field("a", 0, 1), field("b", 1, 1)]);
    let r = fieldset(vec![field("x", 5, 1), field("bb", 1, 1), field("y", 6, 1), field("a", 0, 1)]);
    let s = fieldset(vec![field("y", 6, 1), field("a", 0, 1), field("x", 5, 1), field("bb", 1, 1)]);
    let name = "field at offset 1 with size 1 has name mismatch: 'b' != 'bb'";
    assert_eq!(
        fieldset_texts(&fieldset_compat(&l, &r, CheckLevel::Names)),
        vec![name, "lhs is missing field 'x'", "lhs is missing field 'y'"]
    );
    assert_eq!(
        fieldset_texts(&fieldset_compat(&l, &s, CheckLevel::Names)),
        vec![name, "lhs is missing field 'y'", "lhs is missing field 'x'"]
    );
}

#[test]
fn swapped_blocks_give_as_many_errors() {
    let ir = map_of(
        vec![
            ("X", block(vec![register("R", 0, Some("F")), register("S", 4, None)])),
            ("Y", block(vec![register("Q", 0, Some("G"))])),
        ],
        vec![("F", fieldset(vec![field("a", 0, 1)])), ("G", fieldset(vec![field("b", 1, 1)]))],
    );
    let l = block(vec![nested("N", 0, "X"), register("A", 8, None)]);
    let mut r = block(vec![register("A", 8, Some("F")), nested("M", 0, "Y")]);
    r.description = text("r");
    let there = block_compat(&ir, &l, &r, CheckLevel::Descriptions);
    let back = block_compat(&ir, &r, &l, CheckLevel::Descriptions);
    assert_eq!(there.len(), 7);
    assert_eq!(back.len(), 7);
}
