use chiptool::commands::generate::{generate, Generate, Step};
use chiptool::commands::mux::{
    find_alt_modes, find_daisies, find_daisy_fieldset, find_iomux, find_register, for_one_mux,
    full_pin_name, read_pad, read_pin, Daisy, Iomux, Mux, MuxFault,
};
use chiptool::ir::{
    Access, BitOffset, Block, BlockItem, BlockItemBlock, BlockItemInner, Device, Enum, EnumVariant,
    Field, FieldSet, Register, IR,
};
use chiptool::name_map::NameMap;

const PAD: &str = "iomuxc::regs::SwMuxCtlPadGpioEmcB100";
const MODES: &str = "iomuxc::vals::SwMuxCtlPadGpioEmcB100MuxMode";
const RX: &str = "iomuxc::vals::Lpuart1RxDaisy";
const RX_SET: &str = "iomuxc::regs::Lpuart1RxSelectInput";

fn register(name: &str, fieldset: Option<&str>) -> BlockItem {
    BlockItem {
        name: name.to_string(),
        description: None,
        array: None,
        byte_offset: 0,
        inner: BlockItemInner::Register(Register {
            access: Access::ReadWrite,
            bit_size: 32,
            fieldset: fieldset.map(|f| f.to_string()),
        }),
    }
}

fn block(items: Vec<BlockItem>) -> Block {
    Block { extends: None, description: None, items }
}

fn fieldset(enums: &[Option<&str>]) -> FieldSet {
    let mut fields = vec![];
    for (i, e) in enums.iter().enumerate() {
        fields.push(Field {
            name: format!("f{}", i),
            description: None,
            bit_offset: BitOffset::Regular(i as u32),
            bit_size: 1,
            array: None,
            enumm: e.map(|e| e.to_string()),
        });
    }
    FieldSet { extends: None, description: None, bit_size: 32, fields }
}

fn enumm(names: &[&str]) -> Enum {
    let mut variants = vec![];
    for (i, name) in names.iter().enumerate() {
        variants.push(EnumVariant { name: name.to_string(), description: None, value: i as u64 });
    }
    Enum { description: None, bit_size: 4, variants }
}

fn chip() -> IR {
    let mut ir = IR::new();
    ir.devices = NameMap::new()
        .insert("Rt".to_string(), Device { peripherals: vec![], interrupts: vec![] })
        .insert("Zz".to_string(), Device { peripherals: vec![], interrupts: vec![] });
    ir.blocks = NameMap::new()
        .insert(
            "iomuxc::Iomuxc".to_string(),
            block(vec![
                BlockItem {
                    name: "nested".to_string(),
                    description: None,
                    array: None,
                    byte_offset: 0,
                    inner: BlockItemInner::Block(BlockItemBlock { block: PAD.to_string() }),
                },
                register("sw_mux_ctl_pad_gpio_emc_b1_00", Some(PAD)),
                register("lpuart1_rx_select_input", Some(RX_SET)),
                register("second", Some(RX_SET)),
            ]),
        )
        .insert(
            "iomuxc_aon::IomuxcAon".to_string(),
            block(vec![
                register("plain", None),
                register("lpi2c1_scl_select_input", Some("iomuxc_aon::regs::SclSelectInput")),
            ]),
        );
    ir.fieldsets = NameMap::new()
        .insert(PAD.to_string(), fieldset(&[Some(MODES)]))
        .insert(RX_SET.to_string(), fieldset(&[Some(RX)]))
        .insert(
            "iomuxc_aon::regs::SclSelectInput".to_string(),
            fieldset(&[Some("iomuxc_aon::vals::SclDaisy")]),
        );
    ir.enums = NameMap::new()
        .insert(MODES.to_string(), enumm(&["ALT0_LPUART1_RX", "ALT2_LPI2C1_SCL", "ALT5_GPIO"]))
        .insert(
            RX.to_string(),
            enumm(&["SELECT_GPIO_AD_00_ALT0", "SELECT_GPIO_EMC_B1_00_ALT0"]),
        )
        .insert(
            "iomuxc_aon::vals::SclDaisy".to_string(),
            enumm(&["SELECT_GPIO_EMC_B1_00_ALT2", "SELECT_GPIO_EMC_B1_00_OTHER"]),
        );
    ir
}

fn code(ir: &IR, name: &str) -> Mux {
    for_one_mux(name, ir).unwrap().unwrap()
}

fn args(debug: Option<&str>, output: Option<&str>) -> Generate {
    Generate {
        svd: "chip.svd".to_string(),
        transform: vec![],
        namespaces: "block".to_string(),
        debug_ir_output: debug.map(|s| s.to_string()),
        output: output.map(|s| s.to_string()),
    }
}

#[test]
fn pads_are_read_from_names() {
    let pad = read_pad("a::b::SwMuxCtlPadGpioAd00").unwrap();
    assert_eq!(pad.instance, "a");
    assert_eq!(pad.reg, "SwMuxCtlPadGpioAd00");
    assert_eq!(pad.struct_name, "GpioAd00");
    assert!(read_pad("a::SwMuxCtlPadGpioAd00").is_none());
    assert!(read_pad("a::b::SwPadCtlPadGpioAd00").is_none());
    let pad = read_pad("a::b::SwMuxCtlPadX::c").unwrap();
    assert_eq!(pad.struct_name, "X::c");
}

#[test]
fn pins_are_read_from_pads() {
    let pin = |s: &str| read_pin(s).unwrap().unwrap();
    assert_eq!((pin("GpioAon05").bank, pin("GpioAon05").num), ("Aon".into(), "05".into()));
    assert_eq!((pin("GpioEmcB100").bank, pin("GpioEmcB100").num), ("Emc".into(), "B1_00".into()));
    assert_eq!((pin("GpioSdB205").bank, pin("GpioSdB205").num), ("Sd".into(), "B2_05".into()));
    assert_eq!((pin("GpioAd31").bank, pin("GpioAd31").num), ("Ad".into(), "31".into()));
    assert_eq!((pin("Gpioé7").bank, pin("Gpioé7").num), ("é".into(), "7".into()));
}

#[test]
fn dummy_pads_have_no_pin() {
    assert!(read_pin("GpioEmcDummy").unwrap().is_none());
    assert!(read_pin("GpioDummy").unwrap().is_none());
}

#[test]
fn bad_pin_names_are_faults() {
    assert_eq!(read_pin("Xpio01").unwrap_err(), MuxFault::NotGpio);
    assert_eq!(read_pin("GpioA").unwrap_err(), MuxFault::BadPinName);
    assert_eq!(read_pin("GpioEmcB").unwrap_err(), MuxFault::BadPinName);
    assert_eq!(read_pin("GpioSd").unwrap_err(), MuxFault::BadPinName);
    assert_eq!(read_pin("Gpioaé7").unwrap_err(), MuxFault::BadPinName);
    assert_eq!(read_pin("Gpio€").unwrap_err(), MuxFault::BadPinName);
}

#[test]
fn pin_names_in_full() {
    assert_eq!(full_pin_name("EMC", "B1_00"), "GPIO_EMC_B1_00");
}

#[test]
fn mux_blocks_by_name() {
    assert_eq!(find_iomux("iomuxc"), Some(Iomux::Iomuxc));
    assert_eq!(find_iomux("iomuxc_aon"), Some(Iomux::IomuxcAon));
    assert_eq!(find_iomux("IOMUXC"), None);
    assert_eq!(Iomux::Iomuxc.ident(), "IOMUXC");
    assert_eq!(Iomux::IomuxcAon.ident(), "IOMUXC_AON");
}

#[test]
fn daisy_settings_of_a_pin() {
    let d = find_daisies(&chip(), "GPIO_EMC_B1_00").unwrap();
    let listed: Vec<(&str, &str, &str)> =
        d.iter().map(|d| (d.fs_name.as_str(), d.enumm.as_str(), d.variant.as_str())).collect();
    assert_eq!(
        listed,
        vec![
            (RX_SET, RX, "SELECT_GPIO_EMC_B1_00_ALT0"),
            (
                "iomuxc_aon::regs::SclSelectInput",
                "iomuxc_aon::vals::SclDaisy",
                "SELECT_GPIO_EMC_B1_00_ALT2"
            ),
        ]
    );
}

#[test]
fn fieldset_of_a_daisy_enum() {
    let mut ir = chip();
    assert_eq!(find_daisy_fieldset(&ir, RX).unwrap(), RX_SET);
    assert_eq!(
        find_daisy_fieldset(&ir, "Gone").unwrap_err(),
        MuxFault::MissingDaisyFieldset
    );
    ir.fieldsets = ir.fieldsets.insert("a".to_string(), fieldset(&[Some(RX), None]));
    assert_eq!(find_daisy_fieldset(&ir, RX).unwrap_err(), MuxFault::DaisyFieldCount);
}

#[test]
fn modes_go_by_what_stands_before_the_underscore() {
    let daisies = vec![Daisy {
        fs_name: "f".to_string(),
        enumm: "e".to_string(),
        variant: "SELECT_P_ALT1".to_string(),
    }];
    let modes = find_alt_modes("M", &enumm(&["ALT1_A_B", "ALT2_C"]), "P", &daisies).unwrap();
    assert_eq!(modes.len(), 2);
    assert_eq!((modes[0].mux_enum.as_str(), modes[0].mux_variant.as_str()), ("M", "ALT1_A_B"));
    assert_eq!(modes[0].daisy.as_ref().unwrap().variant, "SELECT_P_ALT1");
    assert!(modes[1].daisy.is_none());
    let fault = find_alt_modes("M", &enumm(&["ALT1_A", "ALT2"]), "P", &daisies).unwrap_err();
    assert_eq!(fault, MuxFault::BadModeName);
}

#[test]
fn registers_by_fieldset() {
    let ir = chip();
    let b = ir.blocks.get("iomuxc::Iomuxc").unwrap();
    assert_eq!(find_register(b, RX_SET), Some("lpuart1_rx_select_input".to_string()));
    assert_eq!(find_register(b, "Gone"), None);
}

#[test]
fn code_of_a_pad() {
    let mux = code(&chip(), PAD);
    assert_eq!(mux.gpio, "GpioEmcB100");
    assert_eq!(mux.mux_enum, "SwMuxCtlPadGpioEmcB100MuxMode");
    assert_eq!(mux.iomux, Iomux::Iomuxc);
    assert_eq!(mux.register, "sw_mux_ctl_pad_gpio_emc_b1_00");
    assert_eq!(mux.arms.len(), 2);
    assert!(mux.sets_daisies());
    let arm = &mux.arms[0];
    assert_eq!(arm.mux_enum, "SwMuxCtlPadGpioEmcB100MuxMode");
    assert_eq!(arm.mux_variant, "ALT0_LPUART1_RX");
    assert_eq!(arm.daisy_block, Iomux::Iomuxc);
    assert_eq!(arm.daisy_register, "lpuart1_rx_select_input");
    assert_eq!(arm.daisy_enum, "Lpuart1RxDaisy");
    assert_eq!(arm.daisy_variant, "SELECT_GPIO_EMC_B1_00_ALT0");
    let arm = &mux.arms[1];
    assert_eq!(arm.mux_variant, "ALT2_LPI2C1_SCL");
    assert_eq!(arm.daisy_block, Iomux::IomuxcAon);
    assert_eq!(arm.daisy_register, "lpi2c1_scl_select_input");
    assert_eq!(arm.daisy_enum, "SclDaisy");
    assert_eq!(arm.daisy_variant, "SELECT_GPIO_EMC_B1_00_ALT2");
}

#[test]
fn namespace_is_read_in_lower_case() {
    let mut ir = chip();
    let pad = "IOMUXC_AON::regs::SwMuxCtlPadGpioAon00";
    ir.enums = ir.enums.insert(
        "IOMUXC_AON::vals::SwMuxCtlPadGpioAon00MuxMode".to_string(),
        enumm(&["ALT0_X"]),
    );
    ir.blocks = ir.blocks.insert(
        "iomuxc_aon::IomuxcAon".to_string(),
        block(vec![register("aon_00", Some(pad))]),
    );
    let mux = code(&ir, pad);
    assert_eq!(mux.iomux, Iomux::IomuxcAon);
    assert_eq!(mux.register, "aon_00");
    assert_eq!(mux.arms.len(), 0);
    assert!(!mux.sets_daisies());
}

#[test]
fn other_fieldsets_have_no_code() {
    let ir = chip();
    assert!(for_one_mux(RX_SET, &ir).unwrap().is_none());
    assert!(for_one_mux("plain", &IR::new()).unwrap().is_none());
    assert!(for_one_mux("iomuxc::regs::SwMuxCtlPadGpioEmcDummy", &ir).unwrap().is_none());
}

#[test]
fn missing_mux_block() {
    let fault = for_one_mux(PAD, &IR::new()).unwrap_err();
    assert_eq!(fault, MuxFault::MissingMuxBlock);
}

#[test]
fn unknown_instance() {
    let fault = for_one_mux("other::regs::SwMuxCtlPadGpioAd00", &chip()).unwrap_err();
    assert_eq!(fault, MuxFault::UnknownInstance);
}

#[test]
fn pad_without_gpio() {
    let fault = for_one_mux("iomuxc::regs::SwMuxCtlPadWakeup", &chip()).unwrap_err();
    assert_eq!(fault, MuxFault::NotGpio);
}

#[test]
fn missing_mux_enum() {
    let fault = for_one_mux("iomuxc::regs::SwMuxCtlPadGpioAd00", &chip()).unwrap_err();
    assert_eq!(fault, MuxFault::MissingMuxEnum);
}

#[test]
fn missing_daisy_fieldset() {
    let mut ir = chip();
    ir.fieldsets = NameMap::new();
    assert_eq!(for_one_mux(PAD, &ir).unwrap_err(), MuxFault::MissingDaisyFieldset);
}

#[test]
fn missing_daisy_register() {
    let mut ir = chip();
    ir.blocks = ir.blocks.insert("iomuxc_aon::IomuxcAon".to_string(), block(vec![]));
    assert_eq!(for_one_mux(PAD, &ir).unwrap_err(), MuxFault::MissingDaisyRegister);
}

#[test]
fn missing_mux_register() {
    let mut ir = chip();
    ir.blocks = ir.blocks.insert(
        "iomuxc::Iomuxc".to_string(),
        block(vec![register("lpuart1_rx_select_input", Some(RX_SET))]),
    );
    assert_eq!(for_one_mux(PAD, &ir).unwrap_err(), MuxFault::MissingMuxRegister);
}

#[test]
fn generation_prints_and_writes() {
    let steps = generate(&args(Some("ir.yaml"), Some("out")), &chip());
    assert_eq!(steps.len(), 5);
    assert!(matches!(&steps[0], Step::Print(s) if s == "use super::*;"));
    assert!(matches!(&steps[1], Step::Mux(m) if m.gpio == "GpioEmcB100"));
    assert!(matches!(&steps[2], Step::DebugIr(p) if p == "ir.yaml"));
    assert!(matches!(&steps[3], Step::Lib(Some(p)) if p == "out"));
    assert!(matches!(&steps[4], Step::DeviceX(Some(p), d) if p == "out" && d == "Rt"));
}

#[test]
fn generation_into_the_current_directory() {
    let steps = generate(&args(None, None), &chip());
    assert!(matches!(&steps[2], Step::Lib(None)));
    assert!(matches!(&steps[3], Step::DeviceX(None, d) if d == "Rt"));
}

#[test]
fn code_without_arms_is_warned_of() {
    let mut ir = chip();
    ir.enums = NameMap::new().insert(MODES.to_string(), enumm(&["ALT5_GPIO"]));
    let steps = generate(&args(None, None), &ir);
    assert!(matches!(
        &steps[1],
        Step::Warn(s) if s == "Found no input daisy for GpioEmcB100. That is probably wrong."
    ));
    assert!(matches!(&steps[2], Step::Mux(m) if m.arms.is_empty()));
}

#[test]
fn generation_stops_at_a_fault() {
    let mut ir = chip();
    ir.fieldsets =
        ir.fieldsets.insert("iomuxc::regs::SwMuxCtlPadWakeup".to_string(), fieldset(&[]));
    let steps = generate(&args(Some("ir.yaml"), None), &ir);
    assert_eq!(steps.len(), 3);
    assert!(matches!(&steps[1], Step::Mux(_)));
    assert!(matches!(&steps[2], Step::Fault(MuxFault::NotGpio)));
}

#[test]
fn generation_needs_a_device() {
    let steps = generate(&args(None, None), &IR::new());
    assert_eq!(steps.len(), 3);
    assert!(matches!(&steps[1], Step::Lib(None)));
    assert!(matches!(&steps[2], Step::NoDevice));
}

#[test]
fn missing_daisies_are_warned_of_before_a_missing_register() {
    let mut ir = chip();
    ir.enums = NameMap::new().insert(MODES.to_string(), enumm(&["ALT5_GPIO"]));
    ir.blocks = ir.blocks.insert("iomuxc::Iomuxc".to_string(), block(vec![]));
    assert_eq!(
        for_one_mux(PAD, &ir).unwrap_err(),
        MuxFault::MissingMuxRegisterAndDaisies
    );
    let steps = generate(&args(None, None), &ir);
    assert_eq!(steps.len(), 3);
    assert!(matches!(
        &steps[1],
        Step::Warn(s) if s == "Found no input daisy for GpioEmcB100. That is probably wrong."
    ));
    assert!(matches!(&steps[2], Step::Fault(MuxFault::MissingMuxRegisterAndDaisies)));
}
