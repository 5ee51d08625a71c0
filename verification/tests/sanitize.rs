use chiptool::ir::{
    Access, Array, BitOffset, Block, BlockItem, BlockItemBlock, BlockItemInner, CursedArray,
    Device, Enum, EnumVariant, Field, FieldSet, Interrupt, Peripheral, Register, IR,
};
use chiptool::name_map::NameMap;
use chiptool::transform::legacy_sanitize::{
    sanitize_name, sanitize_path, to_sanitized_constant_case, to_sanitized_pascal_case,
    to_sanitized_snake_case, LegacySanitize,
};
use chiptool::transform::names::NameKind;
use chiptool::transform::sanitize::{
    merge_duplicate_variants, rename_duplicate_variants, sanitize_ident,
};

fn clean(s: &str) -> String {
    sanitize_ident(s.to_string())
}

fn variant(name: &str, value: u64) -> EnumVariant {
    EnumVariant { name: name.to_string(), description: Some(format!("{} {}", name, value)), value }
}

fn enumm(variants: Vec<EnumVariant>) -> Enum {
    Enum { description: None, bit_size: 4, variants }
}

fn listed(e: &Enum) -> Vec<(&str, u64)> {
    e.variants.iter().map(|v| (v.name.as_str(), v.value)).collect()
}

fn text(s: &str) -> Option<String> {
    Some(s.to_string())
}

#[test]
fn characters_outside_identifiers_are_dropped() {
    assert_eq!(clean("a(b)[c]/d e-f"), "abcdef");
    assert_eq!(clean(""), "");
}

#[test]
fn leading_digits_are_marked() {
    assert_eq!(clean("3v3"), "_3v3");
    assert_eq!(clean("[0]x"), "_0x");
}

#[test]
fn keywords_are_marked() {
    assert_eq!(clean("type"), "type_");
    assert_eq!(clean("Self"), "Self_");
    assert_eq!(clean("(in)"), "in_");
    assert_eq!(clean("Type"), "Type");
}

#[test]
fn sanitizing_twice_changes_nothing_more() {
    for s in ["type", "3v3", "a b", "", "loop", "x-1", "_"] {
        assert_eq!(clean(&clean(s)), clean(s));
    }
}

#[test]
fn cases() {
    assert_eq!(to_sanitized_snake_case("helloWorld"), "hello_world");
    assert_eq!(to_sanitized_snake_case("HELLO-WORLD"), "hello_world");
    assert_eq!(to_sanitized_snake_case("Type"), "type_");
    assert_eq!(to_sanitized_constant_case("helloWorld"), "HELLO_WORLD");
    assert_eq!(to_sanitized_constant_case("8 bit"), "_8_BIT");
    assert_eq!(to_sanitized_pascal_case("hello_world"), "HelloWorld");
    assert_eq!(to_sanitized_pascal_case("self"), "Self_");
}

#[test]
fn paths_end_in_a_type() {
    assert_eq!(sanitize_path("GPIO::regs::PORT_A"), "gpio::regs::PortA");
    assert_eq!(sanitize_path("PORT_A"), "PortA");
    assert_eq!(sanitize_path("mod::type"), "mod_::Type");
    assert_eq!(sanitize_path(""), "");
    assert_eq!(sanitize_path("A::"), "a::");
}

#[test]
fn kinds_have_their_case() {
    assert_eq!(sanitize_name(NameKind::Device, "my_chip"), "MyChip");
    assert_eq!(sanitize_name(NameKind::DevicePeripheral, "uart1"), "UART1");
    assert_eq!(sanitize_name(NameKind::DeviceInterrupt, "uartRx"), "UART_RX");
    assert_eq!(sanitize_name(NameKind::Block, "UART::CTRL"), "uart::Ctrl");
    assert_eq!(sanitize_name(NameKind::BlockItem, "CTRL"), "ctrl");
    assert_eq!(sanitize_name(NameKind::Fieldset, "UART::CTRL"), "uart::Ctrl");
    assert_eq!(sanitize_name(NameKind::Field, "EN"), "en");
    assert_eq!(sanitize_name(NameKind::Enum, "vals::MODE"), "vals::Mode");
    assert_eq!(sanitize_name(NameKind::EnumVariant, "lowPower"), "LOW_POWER");
}

#[test]
fn duplicates_are_merged_into_the_first() {
    let mut e = enumm(vec![variant("A", 1), variant("B", 1), variant("A", 1), variant("A", 2)]);
    e.variants[2].description = text("later");
    merge_duplicate_variants(&mut e);
    assert_eq!(listed(&e), vec![("A", 1), ("B", 1), ("A", 2)]);
    assert_eq!(e.variants[0].description, text("A 1"));
    assert_eq!(e.bit_size, 4);
    merge_duplicate_variants(&mut e);
    assert_eq!(listed(&e), vec![("A", 1), ("B", 1), ("A", 2)]);
}

#[test]
fn shared_names_get_their_values() {
    let mut e = enumm(vec![variant("A", 1), variant("B", 7), variant("A", 20)]);
    rename_duplicate_variants(&mut e);
    assert_eq!(listed(&e), vec![("A_1", 1), ("B", 7), ("A_20", 20)]);
    assert_eq!(e.variants[2].description, text("A 20"));
}

#[test]
fn new_name_can_meet_one_that_was_there() {
    let mut e = enumm(vec![variant("A", 1), variant("A", 2), variant("A_1", 3)]);
    rename_duplicate_variants(&mut e);
    assert_eq!(listed(&e), vec![("A_1", 1), ("A_2", 2), ("A_1", 3)]);
}

fn chip() -> IR {
    let mut ir = IR::new();
    ir.devices = NameMap::new().insert(
        "my_chip".to_string(),
        Device {
            peripherals: vec![Peripheral {
                name: "uart1".to_string(),
                description: None,
                base_address: 0x4000_0000,
                block: text("UART::UART"),
            }],
            interrupts: vec![Interrupt {
                name: "uartRx".to_string(),
                description: text("rx"),
                value: 3,
            }],
        },
    );
    let item = |name: &str, offset: u32, inner: BlockItemInner| BlockItem {
        name: name.to_string(),
        description: None,
        array: None,
        byte_offset: offset,
        inner,
    };
    ir.blocks = NameMap::new()
        .insert(
            "UART::UART".to_string(),
            Block {
                extends: text("BASE"),
                description: text("d"),
                items: vec![
                    item(
                        "CTRL",
                        0,
                        BlockItemInner::Register(Register {
                            access: Access::Read,
                            bit_size: 16,
                            fieldset: text("UART::regs::CTRL"),
                        }),
                    ),
                    item(
                        "SUB",
                        4,
                        BlockItemInner::Block(BlockItemBlock { block: "BASE".to_string() }),
                    ),
                ],
            },
        )
        .insert("BASE".to_string(), Block { extends: None, description: None, items: vec![] });
    ir.fieldsets = NameMap::new().insert(
        "UART::regs::CTRL".to_string(),
        FieldSet {
            extends: text("UART::regs::CTRL"),
            description: None,
            bit_size: 16,
            fields: vec![Field {
                name: "MODE".to_string(),
                description: None,
                bit_offset: BitOffset::Regular(2),
                bit_size: 2,
                array: Some(Array::Cursed(CursedArray { offsets: vec![0, 5] })),
                enumm: text("UART::vals::MODE"),
            }],
        },
    );
    ir.enums = NameMap::new().insert(
        "UART::vals::MODE".to_string(),
        enumm(vec![variant("off", 0), variant("OFF", 0), variant("on", 1), variant("On", 2)]),
    );
    ir
}

#[test]
fn every_name_and_reference_is_sanitized() {
    let mut ir = chip();
    assert!(LegacySanitize {}.run(&mut ir).is_ok());
    assert_eq!(ir.devices.key_at(0), "MyChip");
    let device = ir.devices.get("MyChip").unwrap();
    assert_eq!(device.peripherals[0].name, "UART1");
    assert_eq!(device.peripherals[0].base_address, 0x4000_0000);
    assert_eq!(device.peripherals[0].block, text("uart::Uart"));
    assert_eq!(device.interrupts[0].name, "UART_RX");
    assert_eq!(device.interrupts[0].value, 3);
    assert_eq!(ir.blocks.len(), 2);
    assert_eq!(ir.blocks.key_at(0), "Base");
    let block = ir.blocks.get("uart::Uart").unwrap();
    assert_eq!(block.extends, text("Base"));
    assert_eq!(block.description, text("d"));
    assert_eq!(block.items[0].name, "ctrl");
    match &block.items[0].inner {
        BlockItemInner::Register(r) => {
            assert_eq!(r.fieldset, text("uart::regs::Ctrl"));
            assert_eq!(r.access, Access::Read);
            assert_eq!(r.bit_size, 16);
        }
        BlockItemInner::Block(_) => unreachable!(),
    }
    match &block.items[1].inner {
        BlockItemInner::Block(b) => assert_eq!(b.block, "Base"),
        BlockItemInner::Register(_) => unreachable!(),
    }
    let set = ir.fieldsets.get("uart::regs::Ctrl").unwrap();
    assert_eq!(set.extends, text("uart::regs::Ctrl"));
    assert_eq!(set.fields[0].name, "mode");
    assert_eq!(set.fields[0].enumm, text("uart::vals::Mode"));
    assert_eq!(
        set.fields[0].array,
        Some(Array::Cursed(CursedArray { offsets: vec![0, 5] }))
    );
    let modes = ir.enums.get("uart::vals::Mode").unwrap();
    assert_eq!(listed(modes), vec![("OFF", 0), ("ON_1", 1), ("ON_2", 2)]);
}

#[test]
fn references_still_lead_somewhere() {
    let mut ir = chip();
    LegacySanitize {}.run(&mut ir).unwrap();
    let device = ir.devices.value_at(0);
    let block = ir.blocks.get(device.peripherals[0].block.as_ref().unwrap()).unwrap();
    let set = match &block.items[0].inner {
        BlockItemInner::Register(r) => ir.fieldsets.get(r.fieldset.as_ref().unwrap()).unwrap(),
        BlockItemInner::Block(_) => unreachable!(),
    };
    assert!(ir.enums.get(set.fields[0].enumm.as_ref().unwrap()).is_some());
}

#[test]
fn clashing_names_leave_the_map_as_it_is() {
    let mut ir = chip();
    ir.blocks = ir.blocks.insert(
        "base".to_string(),
        Block { extends: None, description: None, items: vec![] },
    );
    let e = LegacySanitize {}.run(&mut ir).unwrap_err();
    assert_eq!(e.kind, NameKind::Block);
    assert_eq!(e.name, "Base");
    assert!(ir.blocks.get("base").is_some() && ir.blocks.get("BASE").is_some());
    assert!(ir.devices.get("my_chip").is_some());
}
