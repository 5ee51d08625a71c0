use chiptool::commands::check_compat::{
    arrange, check_compat, compare_all, find, find_all, get_list, pick_items, CheckCompat,
    CheckCompatError, CompatReport, Item,
};
use chiptool::ir::{
    Access, BitOffset, Block, BlockItem, BlockItemBlock, BlockItemInner, Field, FieldSet, Register,
    IR,
};
use chiptool::name_map::NameMap;

fn field(name: &str, offset: u32) -> Field {
    Field {
        name: name.to_string(),
        description: None,
        bit_offset: BitOffset::Regular(offset),
        bit_size: 1,
        array: None,
        enumm: None,
    }
}

fn fieldset(fields: Vec<Field>) -> FieldSet {
    FieldSet { extends: None, description: None, bit_size: 32, fields }
}

fn block(names: &[&str]) -> Block {
    let mut items = vec![];
    for (i, name) in names.iter().enumerate() {
        items.push(BlockItem {
            name: name.to_string(),
            description: None,
            array: None,
            byte_offset: 4 * i as u32,
            inner: BlockItemInner::Register(Register {
                access: Access::ReadWrite,
                bit_size: 32,
                fieldset: None,
            }),
        });
    }
    Block { extends: None, description: None, items }
}

fn holder(of: &str) -> Block {
    Block {
        extends: None,
        description: None,
        items: vec![BlockItem {
            name: "inner".to_string(),
            description: None,
            array: None,
            byte_offset: 0,
            inner: BlockItemInner::Block(BlockItemBlock { block: of.to_string() }),
        }],
    }
}

fn map_of(blocks: Vec<(&str, Block)>, fieldsets: Vec<(&str, FieldSet)>) -> IR {
    let mut ir = IR::new();
    let mut b = NameMap::new();
    for (name, value) in blocks {
        b = b.insert(name.to_string(), value);
    }
    let mut f = NameMap::new();
    for (name, value) in fieldsets {
        f = f.insert(name.to_string(), value);
    }
    ir.blocks = b;
    ir.fieldsets = f;
    ir
}

fn uarts() -> IR {
    map_of(
        vec![
            ("uart::Uart2", block(&["CR", "SR"])),
            ("uart::Uart1", block(&["CR", "SR"])),
            ("uart::Uart3", block(&["CR", "XR"])),
            ("spi::Spi", block(&[])),
        ],
        vec![
            ("uart::regs::Sr", fieldset(vec![field("a", 0)])),
            ("uart::regs::Cr", fieldset(vec![field("a", 0)])),
        ],
    )
}

fn args(wanted: &str, exclude: Option<&str>, main: Option<&str>) -> CheckCompat {
    CheckCompat {
        svd: "chip.svd".to_string(),
        transform: vec![],
        namespaces: "block-with-regs-vals".to_string(),
        main: main.map(|s| s.to_string()),
        exclude: exclude.map(|s| s.to_string()),
        included: wanted.to_string(),
    }
}

fn names(items: &[Item]) -> Vec<&str> {
    items.iter().map(|i| i.name()).collect()
}

fn report(ir: &IR, check: &CheckCompat) -> CompatReport {
    match check_compat(ir, check) {
        Ok(r) => r,
        Err(e) => panic!("{}", e.describe()),
    }
}

#[test]
fn items_in_words() {
    let b = Item::Block("a::B".to_string(), block(&[]));
    let f = Item::Fieldset("F".to_string(), fieldset(vec![]));
    assert_eq!(b.name(), "a::B");
    assert_eq!(b.describe(), "block 'a::B'");
    assert_eq!(f.name(), "F");
    assert_eq!(f.describe(), "fieldset 'F'");
}

#[test]
fn blocks_come_before_fieldsets_in_the_order_of_names() {
    let ir = uarts();
    let re = regex::Regex::new("^uart.*$").unwrap();
    assert_eq!(
        names(&find_all(&ir, &re, None)),
        vec!["uart::Uart1", "uart::Uart2", "uart::Uart3", "uart::regs::Cr", "uart::regs::Sr"]
    );
}

#[test]
fn excluded_items_are_left_out() {
    let ir = uarts();
    let re = regex::Regex::new("uart").unwrap();
    let out = regex::Regex::new("regs|3$").unwrap();
    assert_eq!(names(&find_all(&ir, &re, Some(&out))), vec!["uart::Uart1", "uart::Uart2"]);
}

#[test]
fn hits_decide_what_is_picked() {
    let ir = uarts();
    let items = pick_items(&ir, &vec![true, false, false, true], &vec![false, true]);
    assert_eq!(names(&items), vec!["spi::Spi", "uart::Uart3", "uart::regs::Sr"]);
}

#[test]
fn whole_names_have_to_match() {
    let ir = uarts();
    assert!(matches!(find(&ir, "uart"), Ok(None)));
    let found = find(&ir, "uart::Uart.").unwrap().unwrap();
    assert_eq!(found.name(), "uart::Uart1");
    let found = find(&ir, "uart::regs::.*").unwrap().unwrap();
    assert_eq!(found.describe(), "fieldset 'uart::regs::Cr'");
    assert!(find(&ir, "(").is_err());
}

#[test]
fn anchors_bind_closer_than_alternatives() {
    let ir = uarts();
    let (main, rest) = get_list(&ir, &args("spi|Uart2", None, None)).unwrap();
    assert_eq!(main.name(), "spi::Spi");
    assert_eq!(names(&rest), vec!["uart::Uart2"]);
}

#[test]
fn first_item_is_main_if_none_is_asked_for() {
    let ir = uarts();
    let (main, rest) = get_list(&ir, &args("uart::Uart.", Some(".*3"), None)).unwrap();
    assert_eq!(main.name(), "uart::Uart1");
    assert_eq!(names(&rest), vec!["uart::Uart2"]);
}

#[test]
fn main_that_is_asked_for_is_compared_with_all() {
    let ir = uarts();
    let check = args("uart::Uart.", Some("uart::Uart2"), Some("uart::Uart2"));
    let (main, rest) = get_list(&ir, &check).unwrap();
    assert_eq!(main.name(), "uart::Uart2");
    assert_eq!(names(&rest), vec!["uart::Uart1", "uart::Uart3"]);
    let check = args("uart::Uart[12]", None, Some("uart::Uart2"));
    let (main, rest) = get_list(&ir, &check).unwrap();
    assert_eq!(main.name(), "uart::Uart2");
    assert_eq!(names(&rest), vec!["uart::Uart1", "uart::Uart2"]);
}

#[test]
fn invalid_patterns_are_told_apart() {
    let ir = uarts();
    let e = get_list(&ir, &args("(", Some("("), Some("("))).unwrap_err();
    assert!(matches!(e, CheckCompatError::InvalidInclude(_)));
    assert_eq!(e.describe(), "invalid include regex");
    let e = get_list(&ir, &args(".*", Some("["), Some("("))).unwrap_err();
    assert!(matches!(e, CheckCompatError::InvalidExclude(_)));
    assert_eq!(e.describe(), "invalid exclude regex");
    let e = get_list(&ir, &args(".*", None, Some("("))).unwrap_err();
    assert!(matches!(e, CheckCompatError::InvalidMain(_)));
    assert_eq!(e.describe(), "invalid main regex");
}

#[test]
fn missing_items_are_errors() {
    let ir = uarts();
    let e = get_list(&ir, &args(".*", None, Some("i2c.*"))).unwrap_err();
    assert!(matches!(e, CheckCompatError::MainNotFound));
    assert_eq!(e.describe(), "Failed to find main");
    let e = get_list(&ir, &args("i2c.*", None, None)).unwrap_err();
    assert!(matches!(e, CheckCompatError::NoItems));
    assert_eq!(e.describe(), "found no items to include");
    let (_, rest) = get_list(&ir, &args("i2c.*", None, Some("spi.*"))).unwrap();
    assert_eq!(rest.len(), 0);
}

#[test]
fn arrangement_by_hand() {
    let item = |n: &str| Item::Block(n.to_string(), block(&[]));
    let (main, rest) = arrange(None, vec![item("a"), item("b")]).unwrap();
    assert_eq!((main.name(), names(&rest)), ("a", vec!["b"]));
    let (main, rest) = arrange(Some(Some(item("c"))), vec![item("a"), item("b")]).unwrap();
    assert_eq!((main.name(), names(&rest)), ("c", vec!["a", "b"]));
    assert!(matches!(arrange(Some(None), vec![]), Err(CheckCompatError::MainNotFound)));
    assert!(matches!(arrange(None, vec![]), Err(CheckCompatError::NoItems)));
}

#[test]
fn compatible_blocks_succeed() {
    let r = report(&uarts(), &args("uart::Uart[12]", None, None));
    assert_eq!(r.info, vec!["Found main: uart::Uart1", "Found additional: uart::Uart2"]);
    assert_eq!(r.errors, Vec::<String>::new());
    assert!(r.ok && !r.broken);
    assert!(r.verdict().is_ok());
}

#[test]
fn incompatible_blocks_fail() {
    let r = report(&uarts(), &args("uart::Uart.", None, None));
    assert_eq!(
        r.errors,
        vec!["uart::Uart1 <=> uart::Uart3: name mismatch for item at offset 4: 'SR' != 'XR'"]
    );
    assert!(!r.ok && !r.broken);
    let e = r.verdict().unwrap_err();
    assert!(matches!(e, CheckCompatError::Incompatible));
    assert_eq!(e.describe(), "Incompatibilities were detected");
}

#[test]
fn fieldsets_are_compared() {
    let mut ir = uarts();
    let r = report(&ir, &args("uart::regs::.*", None, None));
    assert!(r.ok && r.errors.is_empty());
    let mut other = fieldset(vec![field("b", 3)]);
    other.description = Some("d".to_string());
    ir.fieldsets = ir.fieldsets.insert("uart::regs::Sr".to_string(), other);
    let r = report(&ir, &args("uart::regs::.*", None, None));
    assert_eq!(
        r.errors,
        vec![
            "uart::regs::Cr <=> uart::regs::Sr: description mismatch: 'None' != 'Some(\"d\")'",
            "uart::regs::Cr <=> uart::regs::Sr: rhs is missing field 'a'",
            "uart::regs::Cr <=> uart::regs::Sr: lhs is missing field 'b'",
        ]
    );
    assert!(!r.ok);
}

#[test]
fn other_kinds_are_reported_but_do_not_count() {
    let r = report(&uarts(), &args("spi::Spi|uart::regs::Cr", None, None));
    assert_eq!(
        r.errors,
        vec!["block 'spi::Spi' 'spi::Spi' != fieldset 'uart::regs::Cr' 'uart::regs::Cr'"]
    );
    assert!(r.ok && r.verdict().is_ok());
}

#[test]
fn comparison_without_end_breaks_off() {
    let ir = map_of(
        vec![
            ("A", holder("A")),
            ("B", block(&["x"])),
            ("C", holder("Gone")),
            ("D", block(&[])),
        ],
        vec![],
    );
    let r = report(&ir, &args("[BCD]", None, Some("A")));
    assert!(r.broken && !r.ok);
    assert_eq!(r.info.len(), 4);
    assert_eq!(
        r.errors,
        vec![
            "A <=> B: name mismatch for item at offset 0: 'inner' != 'x'",
            "A <=> B: inner item inner at offset 0: inner type mismatch: lhs is nested block, \
             rhs is register",
        ]
    );
}

#[test]
fn success_holds_between_all_of_the_rest() {
    let ir = uarts();
    let main = Item::Block("m".to_string(), block(&["CR", "SR"]));
    let a = || Item::Block("a".to_string(), block(&["CR", "SR"]));
    let b = || Item::Block("b".to_string(), block(&["CR", "SR"]));
    assert!(compare_all(&ir, &main, &vec![a(), b()]).ok);
    assert!(compare_all(&ir, &a(), &vec![b()]).ok);
    assert!(compare_all(&ir, &b(), &vec![a(), main]).ok);
}
