//! What the code of a pad is, told from the pad's name, character by character, and
//! from the lists of the register map.
use crate::commands::mux::{
    alt_mode_of, arm_of, arms_of, candidate, candidates_in, daisies_of, daisy_fieldset, daisy_from,
    daisy_prefix, gpio_name, iomux_named, led_by, lowercase, mux_enum_of, mux_of, of_variant,
    pad_of, pin_of, register_of, two_bytes, uppercase, with_daisy, with_fieldset, AltModeView,
    DaisyView, Iomux, MuxArmView, MuxFault, MuxView, PadView,
};
use crate::commands::mux_laws::{lemma_collected, lemma_gathered};
use crate::ir::{
    BlockItemInnerView, BlockItemView, BlockView, EnumVariantView, EnumView, FieldSetView, IrView,
};
use crate::name_map::lookup;
use crate::seqs::{
    collect, first, gather, is_first, lemma_first_is_element, lemma_gather_at, lemma_gather_len,
    lemma_gather_locate, lemma_gather_source, lemma_has_first, lemma_total_locate,
    lemma_total_prefix, total,
};
use crate::text::{first_occurrence, split, splitn};
use crate::text_laws::{
    is_part, lemma_before_underscore, lemma_three_parts, lemma_three_parts_found, lemma_underscore,
};
use vstd::prelude::*;

verus! {

broadcast use vstd::seq::group_seq_axioms;

/// Whether a text is made of two, one behind the other.
pub open spec fn is_cat(s: Seq<char>, a: Seq<char>, b: Seq<char>) -> bool {
    s == a + b
}

/// Whether a fieldset's name is that of the mux fieldset of a pad: three parts, the
/// third of which is `SwMuxCtlPad` and the pad's name.
pub open spec fn pad_path(
    fs_name: Seq<char>,
    instance: Seq<char>,
    mid: Seq<char>,
    pad: Seq<char>,
) -> bool {
    &&& is_part(instance)
    &&& is_part(mid)
    &&& fs_name == instance + "::"@ + mid + "::"@ + ("SwMuxCtlPad"@ + pad)
}

/// The name of a mux fieldset is read part by part.
pub proof fn lemma_pad_read(
    fs_name: Seq<char>,
    instance: Seq<char>,
    mid: Seq<char>,
    pad: Seq<char>,
)
    requires
        pad_path(fs_name, instance, mid, pad),
    ensures
        pad_of(fs_name) == Some(
            PadView { instance, reg: "SwMuxCtlPad"@ + pad, struct_name: pad },
        ),
{
    reveal_strlit("SwMuxCtlPad");
    let reg = "SwMuxCtlPad"@ + pad;
    lemma_three_parts_found(instance, mid, reg);
    assert(reg.take(11) =~= "SwMuxCtlPad"@);
    assert(reg.skip(11) =~= pad);
    assert("SwMuxCtlPad"@.is_prefix_of(reg));
}

/// What is read as a pad has such a name.
pub proof fn lemma_pad_named(fs_name: Seq<char>) -> (mid: Seq<char>)
    requires
        pad_of(fs_name) is Some,
    ensures
        ({
            let pad = pad_of(fs_name)->0;
            &&& pad_path(fs_name, pad.instance, mid, pad.struct_name)
            &&& pad.reg == "SwMuxCtlPad"@ + pad.struct_name
        }),
{
    reveal_strlit("SwMuxCtlPad");
    lemma_three_parts(fs_name);
    let parts = splitn(fs_name, "::"@, 3);
    assert(parts[2] =~= "SwMuxCtlPad"@ + parts[2].skip(11));
    parts[1]
}

/// Whether a text takes two bytes.
pub open spec fn is_two_bytes(s: Seq<char>) -> bool {
    ||| s.len() == 2 && (s[0] as u32) < 0x80 && (s[1] as u32) < 0x80
    ||| s.len() == 1 && 0x80 <= s[0] as u32 && (s[0] as u32) < 0x800
}

/// Whether a text is cut behind its first two bytes.
pub open spec fn is_cut(s: Seq<char>, a: Seq<char>, b: Seq<char>) -> bool {
    s == a + b && is_two_bytes(a)
}

/// Whether a text begins with another.
pub open spec fn begins(s: Seq<char>, a: Seq<char>) -> bool {
    exists|b: Seq<char>| #[trigger] is_cat(s, a, b)
}

/// Whether a text ends with another.
pub open spec fn ends(s: Seq<char>, b: Seq<char>) -> bool {
    exists|a: Seq<char>| #[trigger] is_cat(s, a, b)
}

/// Whether `gpio` is the pin of a pad of a bank whose pins have a sub-bank of two
/// bytes.
pub open spec fn sub_bank_named(bank: Seq<char>, pin: Seq<char>, gpio: Seq<char>) -> bool {
    exists|sub: Seq<char>, num: Seq<char>| #[trigger]
        is_cut(pin, sub, num) && gpio == "GPIO_"@ + uppercase(bank) + "_"@ + sub + "_"@ + num
}

/// Whether `gpio` is the pin of a pad whose name goes on with `name` behind `Gpio`.
pub open spec fn pin_named_behind(name: Seq<char>, gpio: Seq<char>) -> bool {
    &&& !ends(name, "Dummy"@)
    &&& {
        ||| exists|num: Seq<char>| #[trigger]
            is_cat(name, "Aon"@, num) && gpio == "GPIO_"@ + uppercase("Aon"@) + "_"@ + num
        ||| exists|pin: Seq<char>| #[trigger]
            is_cat(name, "Emc"@, pin) && sub_bank_named("Emc"@, pin, gpio)
        ||| exists|pin: Seq<char>| #[trigger]
            is_cat(name, "Sd"@, pin) && sub_bank_named("Sd"@, pin, gpio)
        ||| {
            &&& !begins(name, "Aon"@)
            &&& !begins(name, "Emc"@)
            &&& !begins(name, "Sd"@)
            &&& exists|bank: Seq<char>, num: Seq<char>| #[trigger]
                is_cut(name, bank, num) && gpio == "GPIO_"@ + uppercase(bank) + "_"@ + num
        }
    }
}

/// Whether `gpio` is the pin of a pad.
pub open spec fn pin_named(pad: Seq<char>, gpio: Seq<char>) -> bool {
    exists|name: Seq<char>| #[trigger]
        is_cat(pad, "Gpio"@, name) && pin_named_behind(name, gpio)
}

/// A prefix is what a text begins with.
proof fn lemma_begins(s: Seq<char>, a: Seq<char>)
    ensures
        a.is_prefix_of(s) <==> begins(s, a),
        a.is_prefix_of(s) ==> is_cat(s, a, s.skip(a.len() as int)),
{
    if a.is_prefix_of(s) {
        assert(s =~= a + s.skip(a.len() as int));
        assert(is_cat(s, a, s.skip(a.len() as int)));
    }
    if begins(s, a) {
        let b = choose|b: Seq<char>| #[trigger] is_cat(s, a, b);
        assert(s.take(a.len() as int) =~= a);
    }
}

/// A suffix is what a text ends with.
proof fn lemma_ends(s: Seq<char>, b: Seq<char>)
    ensures
        b.is_suffix_of(s) <==> ends(s, b),
{
    if b.is_suffix_of(s) {
        let a = s.take(s.len() - b.len());
        assert(s =~= a + b);
        assert(is_cat(s, a, b));
    }
    if ends(s, b) {
        let a = choose|a: Seq<char>| #[trigger] is_cat(s, a, b);
        assert(s.skip(a.len() as int) =~= b);
    }
}

/// The first two bytes are a text of two bytes.
proof fn lemma_two_bytes(s: Seq<char>)
    ensures
        match two_bytes(s) {
            Some(k) => 0 <= k <= s.len() && is_cut(s, s.take(k), s.skip(k)),
            None => forall|a: Seq<char>, b: Seq<char>| !#[trigger] is_cut(s, a, b),
        },
{
    match two_bytes(s) {
        Some(k) => {
            assert(s =~= s.take(k) + s.skip(k));
        },
        None => {
            assert forall|a: Seq<char>, b: Seq<char>| !#[trigger] is_cut(s, a, b) by {
                if is_cut(s, a, b) {
                    assert(s[0] == a[0]);
                    if a.len() == 2 {
                        assert(s[1] == a[1]);
                    }
                }
            }
        },
    }
}

/// The pin of a bank with sub-banks.
proof fn lemma_sub_bank(bank: Seq<char>, pin: Seq<char>, k: int)
    requires
        two_bytes(pin) == Some(k),
    ensures
        sub_bank_named(
            bank,
            pin,
            gpio_name(uppercase(bank), pin.take(k) + "_"@ + pin.skip(k)),
        ),
{
    lemma_two_bytes(pin);
    let (sub, num) = (pin.take(k), pin.skip(k));
    assert(is_cut(pin, sub, num));
    assert(gpio_name(uppercase(bank), sub + "_"@ + num) =~= "GPIO_"@ + uppercase(bank) + "_"@ + sub
        + "_"@ + num);
}

/// The pin that is read from a pad's name is the one that the name tells: `GPIO_`,
/// the bank in upper case, an underscore and the number, which in the banks `Emc`
/// and `Sd` has an underscore behind its first two bytes. A pad without a pin is a
/// dummy, and a name from which no pin can be read tells none.
pub proof fn lemma_pin(pad: Seq<char>)
    ensures
        match pin_of(pad) {
            Ok(Some(pin)) => pin_named(pad, gpio_name(uppercase(pin.bank), pin.num)),
            Ok(None) => exists|name: Seq<char>| #[trigger]
                is_cat(pad, "Gpio"@, name) && ends(name, "Dummy"@),
            Err(e) => {
                &&& e is NotGpio || e is BadPinName
                &&& e is NotGpio <==> !begins(pad, "Gpio"@)
                &&& forall|gpio: Seq<char>| !#[trigger] pin_named(pad, gpio)
            },
        },
{
    reveal_strlit("Gpio");
    reveal_strlit("Aon");
    reveal_strlit("Emc");
    reveal_strlit("Sd");
    let name = pad.skip(4);
    lemma_begins(pad, "Gpio"@);
    lemma_ends(name, "Dummy"@);
    lemma_begins(name, "Aon"@);
    lemma_begins(name, "Emc"@);
    lemma_begins(name, "Sd"@);
    lemma_two_bytes(name);
    lemma_two_bytes(name.skip(3));
    lemma_two_bytes(name.skip(2));
    match pin_of(pad) {
        Ok(Some(pin)) => {
            let gpio = gpio_name(uppercase(pin.bank), pin.num);
            assert(is_cat(pad, "Gpio"@, name));
            if "Aon"@.is_prefix_of(name) {
                assert(is_cat(name, "Aon"@, name.skip(3)));
            } else if "Emc"@.is_prefix_of(name) {
                lemma_sub_bank("Emc"@, name.skip(3), two_bytes(name.skip(3))->0);
                assert(is_cat(name, "Emc"@, name.skip(3)));
            } else if "Sd"@.is_prefix_of(name) {
                lemma_sub_bank("Sd"@, name.skip(2), two_bytes(name.skip(2))->0);
                assert(is_cat(name, "Sd"@, name.skip(2)));
            } else {
                let k = two_bytes(name)->0;
                assert(is_cut(name, name.take(k), name.skip(k)));
            }
            assert(pin_named_behind(name, gpio));
        },
        Ok(None) => {
            assert(is_cat(pad, "Gpio"@, name));
        },
        Err(e) => {
            assert forall|gpio: Seq<char>| !#[trigger] pin_named(pad, gpio) by {
                if pin_named(pad, gpio) {
                    let n = choose|n: Seq<char>| #[trigger]
                        is_cat(pad, "Gpio"@, n) && pin_named_behind(n, gpio);
                    assert(pad.skip(4) =~= n);
                    if exists|pin: Seq<char>| #[trigger]
                        is_cat(n, "Emc"@, pin) && sub_bank_named("Emc"@, pin, gpio) {
                        let pin = choose|pin: Seq<char>| #[trigger]
                            is_cat(n, "Emc"@, pin) && sub_bank_named("Emc"@, pin, gpio);
                        assert(n.skip(3) =~= pin);
                        assert(n[0] == 'E');
                    } else if exists|pin: Seq<char>| #[trigger]
                        is_cat(n, "Sd"@, pin) && sub_bank_named("Sd"@, pin, gpio) {
                        let pin = choose|pin: Seq<char>| #[trigger]
                            is_cat(n, "Sd"@, pin) && sub_bank_named("Sd"@, pin, gpio);
                        assert(n.skip(2) =~= pin);
                        assert(n[0] == 'S');
                    } else if exists|num: Seq<char>| #[trigger]
                        is_cat(n, "Aon"@, num) && gpio == "GPIO_"@ + uppercase("Aon"@) + "_"@
                            + num {
                        assert(n[0] == 'A');
                    } else {
                        assert(!begins(n, "Aon"@));
                    }
                }
            }
        },
    }
}

/// Whether an item is a register that has this fieldset.
pub open spec fn is_register_with(i: BlockItemView, set: Seq<char>) -> bool {
    i.inner matches BlockItemInnerView::Register { fieldset: Some(f), .. } && f == set
}

/// Whether item `n` is the first register of a block that has this fieldset.
pub open spec fn first_register(b: BlockView, set: Seq<char>, n: int) -> bool {
    &&& 0 <= n < b.items.len()
    &&& is_register_with(b.items[n], set)
    &&& forall|j: int| 0 <= j < n ==> !is_register_with(#[trigger] b.items[j], set)
}

/// Whether no register of a block has this fieldset.
pub open spec fn no_register(b: BlockView, set: Seq<char>) -> bool {
    forall|j: int| 0 <= j < b.items.len() ==> !is_register_with(#[trigger] b.items[j], set)
}

/// The register that is found is the first that has the fieldset.
proof fn lemma_register(b: BlockView, set: Seq<char>)
    ensures
        match register_of(b, set) {
            Some(name) => exists|n: int| #[trigger]
                first_register(b, set, n) && b.items[n].name == name,
            None => no_register(b, set),
        },
{
    let p = with_fieldset(set);
    match register_of(b, set) {
        Some(name) => {
            lemma_first_is_element(b.items, p);
            let n = choose|n: int| #[trigger] is_first(b.items, p, n) && b.items[n] == first(
                b.items,
                p,
            )->0;
            assert forall|j: int| 0 <= j < n implies !is_register_with(
                #[trigger] b.items[j],
                set,
            ) by {
                assert(!p(b.items[j]));
            }
            assert(first_register(b, set, n));
        },
        None => {
            assert forall|j: int| 0 <= j < b.items.len() implies !is_register_with(
                #[trigger] b.items[j],
                set,
            ) by {
                if p(b.items[j]) {
                    lemma_has_first(b.items, p, j);
                }
            }
        },
    }
}

/// Whether the first field of a fieldset takes its values from the enum.
pub open spec fn leads_with(s: FieldSetView, enumm: Seq<char>) -> bool {
    s.fields.len() > 0 && s.fields[0].enumm == Some(enumm)
}

/// Whether fieldset `n` is the first whose first field takes its values from the
/// enum.
pub open spec fn first_led(ir: IrView, enumm: Seq<char>, n: int) -> bool {
    &&& 0 <= n < ir.fieldsets.len()
    &&& leads_with(ir.fieldsets[n].1, enumm)
    &&& forall|j: int| 0 <= j < n ==> !leads_with((#[trigger] ir.fieldsets[j]).1, enumm)
}

/// The fieldset of a daisy enum is the first whose first field has the enum, and
/// has no other field.
proof fn lemma_daisy_set(ir: IrView, enumm: Seq<char>)
    ensures
        match daisy_fieldset(ir, enumm) {
            Ok(set) => exists|n: int| #[trigger]
                first_led(ir, enumm, n) && ir.fieldsets[n].0 == set
                    && ir.fieldsets[n].1.fields.len() == 1,
            Err(e) => {
                ||| {
                    &&& e is DaisyFieldCount
                    &&& exists|n: int| #[trigger]
                        first_led(ir, enumm, n) && ir.fieldsets[n].1.fields.len() != 1
                }
                ||| {
                    &&& e is MissingDaisyFieldset
                    &&& forall|n: int|
                        0 <= n < ir.fieldsets.len() ==> !leads_with(
                            (#[trigger] ir.fieldsets[n]).1,
                            enumm,
                        )
                }
            },
        },
{
    let p = led_by(enumm);
    let s = ir.fieldsets;
    if first(s, p) is Some {
        lemma_first_is_element(s, p);
        let n = choose|n: int| #[trigger] is_first(s, p, n) && s[n] == first(s, p)->0;
        assert forall|j: int| 0 <= j < n implies !leads_with((#[trigger] s[j]).1, enumm) by {
            assert(!p(s[j]));
        }
        assert(first_led(ir, enumm, n));
    } else {
        assert forall|n: int| 0 <= n < s.len() implies !leads_with((#[trigger] s[n]).1, enumm) by {
            if p(s[n]) {
                lemma_has_first(s, p, n);
            }
        }
    }
}

/// Whether an enum has a variant of this name.
pub open spec fn holds_variant(e: EnumView, variant: Seq<char>) -> bool {
    exists|k: int| 0 <= k < e.variants.len() && (#[trigger] e.variants[k]).name == variant
}

/// Whether enum `n` is the first that has a variant of this name.
pub open spec fn first_enum(ir: IrView, variant: Seq<char>, n: int) -> bool {
    &&& 0 <= n < ir.enums.len()
    &&& holds_variant(ir.enums[n].1, variant)
    &&& forall|j: int| 0 <= j < n ==> !holds_variant((#[trigger] ir.enums[j]).1, variant)
}

/// Whether a variant is a daisy setting of a pin: its name begins with `SELECT_`,
/// the pin, and `_ALT`, and some enum has it.
pub open spec fn is_offered(ir: IrView, gpio: Seq<char>, variant: Seq<char>) -> bool {
    &&& begins(variant, "SELECT_"@ + gpio + "_ALT"@)
    &&& exists|n: int| #[trigger] first_enum(ir, variant, n)
}

/// Whether the name of a mode is `alt`, an underscore and the rest.
pub open spec fn is_mode(mode: Seq<char>, alt: Seq<char>, rest: Seq<char>) -> bool {
    mode == alt + "_"@ + rest && !alt.contains('_')
}

/// Whether a variant is the daisy setting that a mode asks for: `SELECT_`, the pin,
/// an underscore and what stands before the first underscore of the mode's name.
pub open spec fn mode_asks(gpio: Seq<char>, mode: Seq<char>, variant: Seq<char>) -> bool {
    exists|alt: Seq<char>, rest: Seq<char>| #[trigger]
        is_mode(mode, alt, rest) && variant == "SELECT_"@ + gpio + "_"@ + alt
}

/// Whether a mode of a pin needs a daisy setting: the one that it asks for is
/// offered.
pub open spec fn mode_needs(ir: IrView, gpio: Seq<char>, mode: Seq<char>) -> bool {
    exists|variant: Seq<char>| #[trigger]
        mode_asks(gpio, mode, variant) && is_offered(ir, gpio, variant)
}

/// One for each mode that needs a daisy setting.
pub open spec fn need(ir: IrView, gpio: Seq<char>) -> spec_fn(EnumVariantView) -> nat {
    |m: EnumVariantView|
        if mode_needs(ir, gpio, m.name) {
            1nat
        } else {
            0nat
        }
}

/// Whether the daisy register of an arm is the first, of the first mux block and
/// then of the other, that has this fieldset.
pub open spec fn arm_writes_to(
    iomuxc: BlockView,
    aon: BlockView,
    set: Seq<char>,
    arm: MuxArmView,
) -> bool {
    match arm.daisy_block {
        Iomux::Iomuxc => exists|n: int| #[trigger]
            first_register(iomuxc, set, n) && iomuxc.items[n].name == arm.daisy_register,
        Iomux::IomuxcAon => no_register(iomuxc, set) && exists|n: int| #[trigger]
            first_register(aon, set, n) && aon.items[n].name == arm.daisy_register,
    }
}

/// Whether an arm sets, for a mode of a pin, the daisy setting that the mode asks
/// for, in the register of the one fieldset that goes with its enum.
pub open spec fn arm_fits(
    ir: IrView,
    iomuxc: BlockView,
    aon: BlockView,
    gpio: Seq<char>,
    mode: Seq<char>,
    arm: MuxArmView,
) -> bool {
    &&& arm.mux_variant == mode
    &&& mode_asks(gpio, mode, arm.daisy_variant)
    &&& exists|n: int, f: int| #[trigger]
        first_enum(ir, arm.daisy_variant, n) && #[trigger] first_led(ir, ir.enums[n].0, f)
            && ir.fieldsets[f].1.fields.len() == 1 && arm.daisy_enum == split(
            ir.enums[n].0,
            "::"@,
        ).last() && arm_writes_to(iomuxc, aon, ir.fieldsets[f].0, arm)
}

/// The variants that are daisy settings, by their enum and place.
proof fn lemma_daisies(ir: IrView, gpio: Seq<char>, daisies: Seq<DaisyView>, d: int) -> (r: (
    int,
    int,
))
    requires
        daisies_of(ir, gpio) == Ok::<Seq<DaisyView>, MuxFault>(daisies),
        0 <= d < daisies.len(),
    ensures
        ({
            let f = candidates_in(daisy_prefix(gpio));
            let (n, m) = r;
            &&& 0 <= n < ir.enums.len()
            &&& 0 <= m < f(ir.enums[n]).len()
            &&& d == total(ir.enums.take(n), |e: (Seq<char>, EnumView)| f(e).len()) + m
            &&& daisies[d].enumm == ir.enums[n].0
            &&& holds_variant(ir.enums[n].1, daisies[d].variant)
            &&& begins(daisies[d].variant, "SELECT_"@ + gpio + "_ALT"@)
            &&& daisy_fieldset(ir, ir.enums[n].0) == Ok::<Seq<char>, MuxFault>(daisies[d].fs_name)
        }),
{
    let f = candidates_in(daisy_prefix(gpio));
    let all = gather(ir.enums, f);
    lemma_collected(all, daisy_from(ir), daisies);
    assert(daisy_from(ir)(all[d]) == Ok::<DaisyView, MuxFault>(daisies[d]));
    let (n, m) = lemma_gather_locate(ir.enums, f, d);
    let (name, e) = ir.enums[n];
    let g = candidate(daisy_prefix(gpio), name);
    let some = f(ir.enums[n]);
    assert(some == gather(e.variants, g));
    let v = lemma_gather_source(e.variants, g, m);
    assert(g(e.variants[v]).contains(some[m]));
    assert(e.variants[v].name == daisies[d].variant);
    lemma_begins(daisies[d].variant, daisy_prefix(gpio));
    (n, m)
}

/// A variant that begins as daisy settings do is one, and stands among those of its
/// enum.
proof fn lemma_daisy_at(
    ir: IrView,
    gpio: Seq<char>,
    daisies: Seq<DaisyView>,
    n: int,
    variant: Seq<char>,
) -> (r: (int, int))
    requires
        daisies_of(ir, gpio) == Ok::<Seq<DaisyView>, MuxFault>(daisies),
        0 <= n < ir.enums.len(),
        holds_variant(ir.enums[n].1, variant),
        begins(variant, "SELECT_"@ + gpio + "_ALT"@),
    ensures
        ({
            let f = candidates_in(daisy_prefix(gpio));
            let (d, m) = r;
            &&& 0 <= m < f(ir.enums[n]).len()
            &&& d == total(ir.enums.take(n), |e: (Seq<char>, EnumView)| f(e).len()) + m
            &&& 0 <= d < daisies.len()
            &&& daisies[d].variant == variant
            &&& daisies[d].enumm == ir.enums[n].0
        }),
{
    let f = candidates_in(daisy_prefix(gpio));
    let all = gather(ir.enums, f);
    lemma_collected(all, daisy_from(ir), daisies);
    let (name, e) = ir.enums[n];
    let g = candidate(daisy_prefix(gpio), name);
    let v = choose|v: int| 0 <= v < e.variants.len() && (#[trigger] e.variants[v]).name == variant;
    lemma_begins(variant, daisy_prefix(gpio));
    assert(g(e.variants[v]) =~= seq![(name, variant)]);
    let m = lemma_gathered(e.variants, g, v, 0);
    assert(f(ir.enums[n]) == gather(e.variants, g));
    lemma_gather_at(ir.enums, f, n, m);
    let d = total(ir.enums.take(n), |e: (Seq<char>, EnumView)| f(e).len()) + m;
    assert(daisy_from(ir)(all[d]) == Ok::<DaisyView, MuxFault>(daisies[d]));
    (d, m)
}

/// The first daisy setting of a name is that of the first enum that has it.
proof fn lemma_first_daisy(
    ir: IrView,
    gpio: Seq<char>,
    daisies: Seq<DaisyView>,
    variant: Seq<char>,
)
    requires
        daisies_of(ir, gpio) == Ok::<Seq<DaisyView>, MuxFault>(daisies),
    ensures
        match first(daisies, of_variant(variant)) {
            Some(daisy) => {
                &&& is_offered(ir, gpio, variant)
                &&& daisy.variant == variant
                &&& exists|n: int| #[trigger]
                    first_enum(ir, variant, n) && daisy.enumm == ir.enums[n].0
                &&& daisy_fieldset(ir, daisy.enumm) == Ok::<Seq<char>, MuxFault>(daisy.fs_name)
            },
            None => !is_offered(ir, gpio, variant),
        },
{
    let p = of_variant(variant);
    let f = candidates_in(daisy_prefix(gpio));
    let len = |e: (Seq<char>, EnumView)| f(e).len();
    match first(daisies, p) {
        Some(daisy) => {
            lemma_first_is_element(daisies, p);
            let d = choose|d: int| #[trigger] is_first(daisies, p, d) && daisies[d] == first(
                daisies,
                p,
            )->0;
            let (n, m) = lemma_daisies(ir, gpio, daisies, d);
            assert forall|j: int| 0 <= j < n implies !holds_variant(
                (#[trigger] ir.enums[j]).1,
                variant,
            ) by {
                if holds_variant(ir.enums[j].1, variant) {
                    let (d2, m2) = lemma_daisy_at(ir, gpio, daisies, j, variant);
                    lemma_total_prefix(ir.enums, len, j, n);
                    assert(d2 < d);
                    assert(!p(daisies[d2]));
                }
            }
            assert(first_enum(ir, variant, n));
        },
        None => {
            if is_offered(ir, gpio, variant) {
                let n = choose|n: int| #[trigger] first_enum(ir, variant, n);
                let (d, m) = lemma_daisy_at(ir, gpio, daisies, n, variant);
                lemma_has_first(daisies, p, d);
            }
        },
    }
}

/// A mode has the daisy setting that it asks for, if that is offered.
proof fn lemma_mode(
    ir: IrView,
    gpio: Seq<char>,
    mux_enum: Seq<char>,
    daisies: Seq<DaisyView>,
    v: EnumVariantView,
)
    requires
        daisies_of(ir, gpio) == Ok::<Seq<DaisyView>, MuxFault>(daisies),
    ensures
        match alt_mode_of(mux_enum, gpio, daisies)(v) {
            Ok(mode) => {
                &&& v.name.contains('_')
                &&& mode.mux_enum == mux_enum
                &&& mode.mux_variant == v.name
                &&& mode.daisy is Some <==> mode_needs(ir, gpio, v.name)
                &&& mode.daisy matches Some(daisy) ==> {
                    &&& mode_asks(gpio, v.name, daisy.variant)
                    &&& exists|n: int| #[trigger]
                        first_enum(ir, daisy.variant, n) && daisy.enumm == ir.enums[n].0
                    &&& daisy_fieldset(ir, daisy.enumm) == Ok::<Seq<char>, MuxFault>(daisy.fs_name)
                }
            },
            Err(e) => e is BadModeName && !v.name.contains('_'),
        },
{
    reveal_strlit("_");
    lemma_before_underscore(v.name);
    if let Some(i) = first_occurrence(v.name, "_"@) {
        let (alt, rest) = (v.name.take(i), v.name.skip(i + 1));
        let variant = "SELECT_"@ + gpio + "_"@ + alt;
        assert(v.name[i] == (alt + "_"@ + rest)[i]);
        assert(is_mode(v.name, alt, rest));
        lemma_first_daisy(ir, gpio, daisies, variant);
        assert(mode_asks(gpio, v.name, variant));
        if mode_needs(ir, gpio, v.name) {
            let w = choose|w: Seq<char>| #[trigger]
                mode_asks(gpio, v.name, w) && is_offered(ir, gpio, w);
            let (a, b) = choose|a: Seq<char>, b: Seq<char>| #[trigger]
                is_mode(v.name, a, b) && w == "SELECT_"@ + gpio + "_"@ + a;
            lemma_underscore(a, b);
            assert(a == alt);
        }
    }
}

/// The block of a mux block's name.
pub open spec fn mux_block(ir: IrView, iomux: Iomux) -> Option<BlockView> {
    match iomux {
        Iomux::Iomuxc => lookup(ir.blocks, "iomuxc::Iomuxc"@),
        Iomux::IomuxcAon => lookup(ir.blocks, "iomuxc_aon::IomuxcAon"@),
    }
}

/// The modes of a pad: the variants of the enum that is named after it.
pub open spec fn pad_modes(ir: IrView, instance: Seq<char>, pad: Seq<char>) -> Option<EnumView> {
    lookup(ir.enums, instance + "::vals::"@ + ("SwMuxCtlPad"@ + pad + "MuxMode"@))
}

/// The code of a pad selects the mode in the first register, of the mux block that
/// the pad's path begins with, that has the pad's fieldset. Its arms are, in order,
/// one for each mode that needs a daisy setting. Every daisy setting of the pin
/// goes with one fieldset of one field.
pub proof fn lemma_pad_code(
    ir: IrView,
    fs_name: Seq<char>,
    instance: Seq<char>,
    mid: Seq<char>,
    pad: Seq<char>,
    mux: MuxView,
) -> (gpio: Seq<char>)
    requires
        pad_path(fs_name, instance, mid, pad),
        mux_of(ir, fs_name) == Ok::<Option<MuxView>, MuxFault>(Some(mux)),
    ensures
        pin_named(pad, gpio),
        mux.gpio == pad,
        mux.mux_enum == "SwMuxCtlPad"@ + pad + "MuxMode"@,
        mux.iomux is Iomuxc ==> lowercase(instance) == "iomuxc"@,
        mux.iomux is IomuxcAon ==> lowercase(instance) == "iomuxc_aon"@,
        mux_block(ir, Iomux::Iomuxc) is Some,
        mux_block(ir, Iomux::IomuxcAon) is Some,
        pad_modes(ir, instance, pad) is Some,
        exists|n: int| #[trigger]
            first_register(mux_block(ir, mux.iomux)->0, fs_name, n) && (mux_block(
                ir,
                mux.iomux,
            )->0).items[n].name == mux.register,
        ({
            let modes = (pad_modes(ir, instance, pad)->0).variants;
            let w = need(ir, gpio);
            &&& mux.arms.len() == total(modes, w)
            &&& forall|v: int|
                0 <= v < modes.len() ==> (#[trigger] modes[v]).name.contains('_') && (mode_needs(
                    ir,
                    gpio,
                    modes[v].name,
                ) ==> {
                    let at = total(modes.take(v), w) as int;
                    &&& 0 <= at < mux.arms.len()
                    &&& mux.arms[at].mux_enum == "SwMuxCtlPad"@ + pad + "MuxMode"@
                    &&& arm_fits(
                        ir,
                        mux_block(ir, Iomux::Iomuxc)->0,
                        mux_block(ir, Iomux::IomuxcAon)->0,
                        gpio,
                        modes[v].name,
                        mux.arms[at],
                    )
                })
        }),
        forall|variant: Seq<char>, n: int|
            0 <= n < ir.enums.len() && #[trigger] holds_variant(ir.enums[n].1, variant) && begins(
                variant,
                "SELECT_"@ + gpio + "_ALT"@,
            ) ==> exists|f: int| #[trigger]
                first_led(ir, ir.enums[n].0, f) && ir.fieldsets[f].1.fields.len() == 1,
{
    lemma_pad_read(fs_name, instance, mid, pad);
    lemma_pin(pad);
    let view = pad_of(fs_name)->0;
    let pin = (pin_of(pad)->Ok_0)->0;
    let gpio = gpio_name(uppercase(pin.bank), pin.num);
    let iomuxc = lookup(ir.blocks, "iomuxc::Iomuxc"@)->0;
    let aon = lookup(ir.blocks, "iomuxc_aon::IomuxcAon"@)->0;
    let variants = (pad_modes(ir, instance, pad)->0).variants;
    let daisies = daisies_of(ir, gpio)->Ok_0;
    let f = alt_mode_of(mux_enum_of(view), gpio, daisies);
    let modes = collect(variants, f)->Ok_0;
    let g = with_daisy();
    let pairs = gather(modes, g);
    let w = need(ir, gpio);
    lemma_register(mux_block(ir, mux.iomux)->0, fs_name);
    lemma_collected(pairs, arm_of(iomuxc, aon), mux.arms);
    lemma_collected(variants, f, modes);
    let len = |a: AltModeView| g(a).len();
    assert forall|v: int| 0 <= v < variants.len() implies len(#[trigger] modes[v]) == w(
        variants[v],
    ) && variants[v].name.contains('_') by {
        lemma_mode(ir, gpio, mux_enum_of(view), daisies, variants[v]);
        assert(f(variants[v]) == Ok::<AltModeView, MuxFault>(modes[v]));
    }
    lemma_gather_len(modes, g);
    lemma_totals_alike(modes, len, variants, w);
    assert forall|v: int| 0 <= v < variants.len() implies (#[trigger] variants[v]).name.contains(
        '_',
    ) && (mode_needs(ir, gpio, variants[v].name) ==> {
        let at = total(variants.take(v), w) as int;
        &&& 0 <= at < mux.arms.len()
        &&& mux.arms[at].mux_enum == "SwMuxCtlPad"@ + pad + "MuxMode"@
        &&& arm_fits(ir, iomuxc, aon, gpio, variants[v].name, mux.arms[at])
    }) by {
        assert(len(modes[v]) == w(variants[v]));
        if mode_needs(ir, gpio, variants[v].name) {
            lemma_mode(ir, gpio, mux_enum_of(view), daisies, variants[v]);
            assert(f(variants[v]) == Ok::<AltModeView, MuxFault>(modes[v]));
            lemma_gather_at(modes, g, v, 0);
            assert forall|j: int| 0 <= j < v implies len(#[trigger] modes.take(v)[j]) == w(
                variants.take(v)[j],
            ) by {
                assert(len(modes[j]) == w(variants[j]));
            }
            lemma_totals_alike(modes.take(v), len, variants.take(v), w);
            let at = total(variants.take(v), w) as int;
            assert(pairs[at] == (modes[v], modes[v].daisy->0));
            assert(arm_of(iomuxc, aon)(pairs[at]) == Ok::<MuxArmView, MuxFault>(mux.arms[at]));
            let daisy = modes[v].daisy->0;
            let n = choose|n: int| #[trigger]
                first_enum(ir, daisy.variant, n) && daisy.enumm == ir.enums[n].0;
            lemma_daisy_set(ir, daisy.enumm);
            let s = choose|s: int| #[trigger]
                first_led(ir, daisy.enumm, s) && ir.fieldsets[s].0 == daisy.fs_name
                    && ir.fieldsets[s].1.fields.len() == 1;
            lemma_register(iomuxc, daisy.fs_name);
            lemma_register(aon, daisy.fs_name);
            assert(first_led(ir, ir.enums[n].0, s));
            assert(arm_writes_to(iomuxc, aon, ir.fieldsets[s].0, mux.arms[at]));
            assert(mux.arms[at].daisy_variant == daisy.variant);
            assert(0 <= at < mux.arms.len());
            assert(mux.arms[at].mux_enum == "SwMuxCtlPad"@ + pad + "MuxMode"@);
            assert(first_enum(ir, mux.arms[at].daisy_variant, n));
            assert(arm_fits(ir, iomuxc, aon, gpio, variants[v].name, mux.arms[at]));
        }
    }
    assert forall|variant: Seq<char>, n: int|
        0 <= n < ir.enums.len() && #[trigger] holds_variant(ir.enums[n].1, variant) && begins(
            variant,
            "SELECT_"@ + gpio + "_ALT"@,
        ) implies exists|f: int| #[trigger]
        first_led(ir, ir.enums[n].0, f) && ir.fieldsets[f].1.fields.len() == 1 by {
        let (d, m) = lemma_daisy_at(ir, gpio, daisies, n, variant);
        let (n2, m2) = lemma_daisies(ir, gpio, daisies, d);
        lemma_daisy_set(ir, ir.enums[n].0);
    }
    gpio
}

/// Lists that weigh the same place by place weigh the same.
proof fn lemma_totals_alike<A, B>(
    s: Seq<A>,
    v: spec_fn(A) -> nat,
    t: Seq<B>,
    w: spec_fn(B) -> nat,
)
    requires
        s.len() == t.len(),
        forall|i: int| 0 <= i < s.len() ==> v(#[trigger] s[i]) == w(t[i]),
    ensures
        total(s, v) == total(t, w),
    decreases s.len(),
{
    if s.len() > 0 {
        let (a, b) = (s.drop_last(), t.drop_last());
        assert forall|i: int| 0 <= i < a.len() implies v(#[trigger] a[i]) == w(b[i]) by {
            assert(v(s[i]) == w(t[i]));
        }
        lemma_totals_alike(a, v, b, w);
        assert(v(s[s.len() - 1]) == w(t[t.len() - 1]));
    }
}

/// What has failed failed at an element.
proof fn lemma_failed_at<A, B, E>(s: Seq<A>, f: spec_fn(A) -> Result<B, E>, e: E) -> (i: int)
    requires
        collect(s, f) == Err::<Seq<B>, E>(e),
    ensures
        0 <= i < s.len(),
        f(s[i]) == Err::<B, E>(e),
    decreases s.len(),
{
    match collect(s.drop_last(), f) {
        Ok(_) => s.len() - 1,
        Err(_) => lemma_failed_at(s.drop_last(), f, e),
    }
}

/// Whether enum `n` has a daisy setting of the pin of a pad.
pub open spec fn offers(ir: IrView, pad: Seq<char>, n: int) -> bool {
    &&& 0 <= n < ir.enums.len()
    &&& exists|gpio: Seq<char>, variant: Seq<char>|
        #![trigger pin_named(pad, gpio), holds_variant(ir.enums[n].1, variant)]
        pin_named(pad, gpio) && holds_variant(ir.enums[n].1, variant) && begins(
            variant,
            "SELECT_"@ + gpio + "_ALT"@,
        )
}

/// Whether a mode of a pad needs a daisy setting whose fieldset no register of the
/// mux blocks has.
pub open spec fn lacks_register(ir: IrView, pad: Seq<char>, mode: Seq<char>) -> bool {
    exists|gpio: Seq<char>, variant: Seq<char>, n: int, f: int|
        #![trigger pin_named(pad, gpio), first_enum(ir, variant, n), first_led(ir, ir.enums[n].0, f)]
        {
            &&& pin_named(pad, gpio)
            &&& mode_asks(gpio, mode, variant)
            &&& first_enum(ir, variant, n)
            &&& first_led(ir, ir.enums[n].0, f)
            &&& no_register(mux_block(ir, Iomux::Iomuxc)->0, ir.fieldsets[f].0)
            &&& no_register(mux_block(ir, Iomux::IomuxcAon)->0, ir.fieldsets[f].0)
        }
}

/// Whether no register of the mux block that a pad's path begins with has the pad's
/// fieldset.
pub open spec fn lacks_home(ir: IrView, fs_name: Seq<char>, instance: Seq<char>) -> bool {
    ||| lowercase(instance) == "iomuxc"@ && no_register(mux_block(ir, Iomux::Iomuxc)->0, fs_name)
    ||| lowercase(instance) == "iomuxc_aon"@ && no_register(
        mux_block(ir, Iomux::IomuxcAon)->0,
        fs_name,
    )
}

/// Whether some mode of a pad needs a daisy setting.
pub open spec fn some_mode_needs(ir: IrView, instance: Seq<char>, pad: Seq<char>) -> bool {
    exists|gpio: Seq<char>, v: int|
        #![trigger pin_named(pad, gpio), (pad_modes(ir, instance, pad)->0).variants[v]]
        pin_named(pad, gpio) && 0 <= v < (pad_modes(ir, instance, pad)->0).variants.len()
            && mode_needs(ir, gpio, (pad_modes(ir, instance, pad)->0).variants[v].name)
}

/// Whether a fault is one of this pad.
pub open spec fn fault_fits(
    ir: IrView,
    fs_name: Seq<char>,
    instance: Seq<char>,
    pad: Seq<char>,
    e: MuxFault,
) -> bool {
    match e {
        MuxFault::MissingMuxBlock => mux_block(ir, Iomux::Iomuxc) is None || mux_block(
            ir,
            Iomux::IomuxcAon,
        ) is None,
        MuxFault::UnknownInstance => lowercase(instance) != "iomuxc"@ && lowercase(instance)
            != "iomuxc_aon"@,
        MuxFault::NotGpio => !begins(pad, "Gpio"@),
        MuxFault::BadPinName => begins(pad, "Gpio"@) && forall|gpio: Seq<char>|
            !#[trigger] pin_named(pad, gpio),
        MuxFault::MissingMuxEnum => pad_modes(ir, instance, pad) is None,
        MuxFault::DaisyFieldCount => exists|n: int, f: int| #[trigger]
            offers(ir, pad, n) && #[trigger] first_led(ir, ir.enums[n].0, f)
                && ir.fieldsets[f].1.fields.len() != 1,
        MuxFault::MissingDaisyFieldset => exists|n: int| #[trigger]
            offers(ir, pad, n) && forall|f: int|
                0 <= f < ir.fieldsets.len() ==> !leads_with(
                    (#[trigger] ir.fieldsets[f]).1,
                    ir.enums[n].0,
                ),
        MuxFault::BadModeName => exists|v: int|
            0 <= v < (pad_modes(ir, instance, pad)->0).variants.len() && !(#[trigger] (pad_modes(
                ir,
                instance,
                pad,
            )->0).variants[v]).name.contains('_'),
        MuxFault::MissingDaisyRegister => exists|v: int|
            0 <= v < (pad_modes(ir, instance, pad)->0).variants.len() && lacks_register(
                ir,
                pad,
                (#[trigger] (pad_modes(ir, instance, pad)->0).variants[v]).name,
            ),
        MuxFault::MissingMuxRegister => lacks_home(ir, fs_name, instance) && some_mode_needs(
            ir,
            instance,
            pad,
        ),
        MuxFault::MissingMuxRegisterAndDaisies => lacks_home(ir, fs_name, instance) && exists|
            gpio: Seq<char>,
        | #[trigger]
            pin_named(pad, gpio) && forall|v: int|
                0 <= v < (pad_modes(ir, instance, pad)->0).variants.len() ==> !mode_needs(
                    ir,
                    gpio,
                    (#[trigger] (pad_modes(ir, instance, pad)->0).variants[v]).name,
                ),
    }
}

/// A daisy setting fails where its enum does not go with one fieldset of one field.
proof fn lemma_daisies_fault(ir: IrView, pad: Seq<char>, gpio: Seq<char>, e: MuxFault)
    requires
        pin_named(pad, gpio),
        daisies_of(ir, gpio) == Err::<Seq<DaisyView>, MuxFault>(e),
    ensures
        e is DaisyFieldCount || e is MissingDaisyFieldset,
        e is DaisyFieldCount ==> exists|n: int, f: int| #[trigger]
            offers(ir, pad, n) && #[trigger] first_led(ir, ir.enums[n].0, f)
                && ir.fieldsets[f].1.fields.len() != 1,
        e is MissingDaisyFieldset ==> exists|n: int| #[trigger]
            offers(ir, pad, n) && forall|f: int|
                0 <= f < ir.fieldsets.len() ==> !leads_with(
                    (#[trigger] ir.fieldsets[f]).1,
                    ir.enums[n].0,
                ),
{
    let f = candidates_in(daisy_prefix(gpio));
    let all = gather(ir.enums, f);
    let d = lemma_failed_at(all, daisy_from(ir), e);
    let (n, m) = lemma_gather_locate(ir.enums, f, d);
    let (name, en) = ir.enums[n];
    let g = candidate(daisy_prefix(gpio), name);
    let some = f(ir.enums[n]);
    assert(some == gather(en.variants, g));
    let v = lemma_gather_source(en.variants, g, m);
    assert(g(en.variants[v]).contains(some[m]));
    let variant = en.variants[v].name;
    lemma_begins(variant, daisy_prefix(gpio));
    assert(holds_variant(ir.enums[n].1, variant));
    assert(offers(ir, pad, n));
    lemma_daisy_set(ir, name);
}

/// A fieldset has no code where its name is not that of a pad, or is that of a
/// dummy pad; and a fault where the fault is one of the pad.
pub proof fn lemma_no_code(ir: IrView, fs_name: Seq<char>)
    ensures
        match mux_of(ir, fs_name) {
            Ok(Some(_)) => true,
            Ok(None) => {
                ||| forall|instance: Seq<char>, mid: Seq<char>, pad: Seq<char>|
                    !#[trigger] pad_path(fs_name, instance, mid, pad)
                ||| exists|instance: Seq<char>, mid: Seq<char>, pad: Seq<char>, name: Seq<char>|
                    #[trigger] pad_path(fs_name, instance, mid, pad) && #[trigger] is_cat(
                        pad,
                        "Gpio"@,
                        name,
                    ) && ends(name, "Dummy"@)
            },
            Err(e) => exists|instance: Seq<char>, mid: Seq<char>, pad: Seq<char>| #[trigger]
                pad_path(fs_name, instance, mid, pad) && fault_fits(ir, fs_name, instance, pad, e),
        },
{
    match pad_of(fs_name) {
        None => {
            assert forall|instance: Seq<char>, mid: Seq<char>, pad: Seq<char>|
                !#[trigger] pad_path(fs_name, instance, mid, pad) by {
                if pad_path(fs_name, instance, mid, pad) {
                    lemma_pad_read(fs_name, instance, mid, pad);
                }
            }
        },
        Some(view) => {
            let mid = lemma_pad_named(fs_name);
            let (instance, pad) = (view.instance, view.struct_name);
            assert(pad_path(fs_name, instance, mid, pad));
            lemma_pin(pad);
            if let Err(e) = mux_of(ir, fs_name) {
                lemma_fault(ir, fs_name, instance, mid, pad, e);
            }
        },
    }
}

/// The fault of a pad fits it.
proof fn lemma_fault(
    ir: IrView,
    fs_name: Seq<char>,
    instance: Seq<char>,
    mid: Seq<char>,
    pad: Seq<char>,
    e: MuxFault,
)
    requires
        pad_path(fs_name, instance, mid, pad),
        mux_of(ir, fs_name) == Err::<Option<MuxView>, MuxFault>(e),
    ensures
        fault_fits(ir, fs_name, instance, pad, e),
{
    lemma_pad_read(fs_name, instance, mid, pad);
    lemma_pin(pad);
    let view = pad_of(fs_name)->0;
    let pin = (pin_of(pad)->Ok_0)->0;
    let gpio = gpio_name(uppercase(pin.bank), pin.num);
    let blocks = mux_block(ir, Iomux::Iomuxc) is Some && mux_block(ir, Iomux::IomuxcAon) is Some;
    let named = iomux_named(lowercase(instance));
    if blocks && named is Some && pin_of(pad) is Ok && pad_modes(ir, instance, pad) is Some {
        let iomuxc = mux_block(ir, Iomux::Iomuxc)->0;
        let aon = mux_block(ir, Iomux::IomuxcAon)->0;
        let variants = (pad_modes(ir, instance, pad)->0).variants;
        let f = alt_mode_of(mux_enum_of(view), gpio, daisies_of(ir, gpio)->Ok_0);
        match daisies_of(ir, gpio) {
            Err(x) => {
                lemma_daisies_fault(ir, pad, gpio, x);
            },
            Ok(daisies) => match collect(variants, f) {
                Err(x) => {
                    let v = lemma_failed_at(variants, f, x);
                    lemma_mode(ir, gpio, mux_enum_of(view), daisies, variants[v]);
                },
                Ok(modes) => {
                    lemma_modes_fault(
                        ir,
                        fs_name,
                        instance,
                        pad,
                        gpio,
                        daisies,
                        modes,
                        named->0,
                        e,
                    );
                },
            },
        }
    }
}

/// A pad whose modes are found fails where a register is missing.
proof fn lemma_modes_fault(
    ir: IrView,
    fs_name: Seq<char>,
    instance: Seq<char>,
    pad: Seq<char>,
    gpio: Seq<char>,
    daisies: Seq<DaisyView>,
    modes: Seq<AltModeView>,
    iomux: Iomux,
    e: MuxFault,
)
    requires
        pin_named(pad, gpio),
        daisies_of(ir, gpio) == Ok::<Seq<DaisyView>, MuxFault>(daisies),
        iomux_named(lowercase(instance)) == Some(iomux),
        mux_block(ir, Iomux::Iomuxc) is Some,
        mux_block(ir, Iomux::IomuxcAon) is Some,
        pad_modes(ir, instance, pad) is Some,
        collect(
            (pad_modes(ir, instance, pad)->0).variants,
            alt_mode_of("SwMuxCtlPad"@ + pad + "MuxMode"@, gpio, daisies),
        ) == Ok::<Seq<AltModeView>, MuxFault>(modes),
        match arms_of(mux_block(ir, Iomux::Iomuxc)->0, mux_block(ir, Iomux::IomuxcAon)->0, modes) {
            Err(x) => e == x,
            Ok(arms) => register_of(mux_block(ir, iomux)->0, fs_name) is None && e == if arms.len()
                == 0 {
                MuxFault::MissingMuxRegisterAndDaisies
            } else {
                MuxFault::MissingMuxRegister
            },
        },
    ensures
        fault_fits(ir, fs_name, instance, pad, e),
{
    let iomuxc = mux_block(ir, Iomux::Iomuxc)->0;
    let aon = mux_block(ir, Iomux::IomuxcAon)->0;
    let mux_enum = "SwMuxCtlPad"@ + pad + "MuxMode"@;
    let variants = (pad_modes(ir, instance, pad)->0).variants;
    let f = alt_mode_of(mux_enum, gpio, daisies);
    let g = with_daisy();
    let pairs = gather(modes, g);
    lemma_collected(variants, f, modes);
    assert forall|v: int| 0 <= v < variants.len() implies ((#[trigger] modes[v]).daisy is Some
        <==> mode_needs(ir, gpio, variants[v].name)) by {
        lemma_mode(ir, gpio, mux_enum, daisies, variants[v]);
        assert(f(variants[v]) == Ok::<AltModeView, MuxFault>(modes[v]));
    }
    match arms_of(iomuxc, aon, modes) {
        Err(x) => {
            let k = lemma_failed_at(pairs, arm_of(iomuxc, aon), x);
            let (v, m) = lemma_gather_locate(modes, g, k);
            lemma_mode(ir, gpio, mux_enum, daisies, variants[v]);
            assert(f(variants[v]) == Ok::<AltModeView, MuxFault>(modes[v]));
            let daisy = modes[v].daisy->0;
            assert(pairs[k] == (modes[v], daisy));
            let n = choose|n: int| #[trigger]
                first_enum(ir, daisy.variant, n) && daisy.enumm == ir.enums[n].0;
            lemma_daisy_set(ir, daisy.enumm);
            let s = choose|s: int| #[trigger]
                first_led(ir, daisy.enumm, s) && ir.fieldsets[s].0 == daisy.fs_name
                    && ir.fieldsets[s].1.fields.len() == 1;
            lemma_register(iomuxc, daisy.fs_name);
            lemma_register(aon, daisy.fs_name);
            assert(first_led(ir, ir.enums[n].0, s));
            assert(lacks_register(ir, pad, variants[v].name));
        },
        Ok(arms) => {
            lemma_register(mux_block(ir, iomux)->0, fs_name);
            lemma_collected(pairs, arm_of(iomuxc, aon), arms);
            if arms.len() == 0 {
                assert forall|v: int| 0 <= v < variants.len() implies !mode_needs(
                    ir,
                    gpio,
                    (#[trigger] variants[v]).name,
                ) by {
                    if mode_needs(ir, gpio, variants[v].name) {
                        assert(modes[v].daisy is Some);
                        let at = lemma_gathered(modes, g, v, 0);
                    }
                }
            } else {
                let (v, m) = lemma_gather_locate(modes, g, 0);
                assert(modes[v].daisy is Some);
                assert(mode_needs(ir, gpio, variants[v].name));
                assert(some_mode_needs(ir, instance, pad));
            }
        },
    }
}

/// Each arm of a pad's code is that of a mode, and sets the daisy setting `SELECT_`,
/// the pin, an underscore and what stands before the first underscore of the mode.
pub proof fn lemma_arm_variant(
    ir: IrView,
    fs_name: Seq<char>,
    instance: Seq<char>,
    mid: Seq<char>,
    pad: Seq<char>,
    mux: MuxView,
    k: int,
) -> (r: (Seq<char>, int))
    requires
        pad_path(fs_name, instance, mid, pad),
        mux_of(ir, fs_name) == Ok::<Option<MuxView>, MuxFault>(Some(mux)),
        0 <= k < mux.arms.len(),
    ensures
        ({
            let (gpio, v) = r;
            let modes = (pad_modes(ir, instance, pad)->0).variants;
            &&& pin_named(pad, gpio)
            &&& 0 <= v < modes.len()
            &&& mux.arms[k].mux_variant == modes[v].name
            &&& mode_asks(gpio, modes[v].name, mux.arms[k].daisy_variant)
        }),
{
    let gpio = lemma_pad_code(ir, fs_name, instance, mid, pad, mux);
    let modes = (pad_modes(ir, instance, pad)->0).variants;
    let v = lemma_total_locate(modes, need(ir, gpio), k);
    assert(mode_needs(ir, gpio, modes[v].name));
    (gpio, v)
}

/// The pin of a pad of the bank `Aon` is `GPIO_`, the bank in upper case, an
/// underscore and the rest of the pad's name.
pub proof fn lemma_aon_pin(num: Seq<char>, gpio: Seq<char>)
    requires
        pin_named("Gpio"@ + ("Aon"@ + num), gpio),
    ensures
        gpio == "GPIO_"@ + uppercase("Aon"@) + "_"@ + num,
{
    reveal_strlit("Gpio");
    reveal_strlit("Aon");
    reveal_strlit("Emc");
    reveal_strlit("Sd");
    let behind = "Aon"@ + num;
    let name = lemma_behind_gpio(behind, gpio);
    assert(name[0] == 'A');
    assert(is_cat(name, "Aon"@, num));
    let n = choose|n: Seq<char>| #[trigger]
        is_cat(name, "Aon"@, n) && gpio == "GPIO_"@ + uppercase("Aon"@) + "_"@ + n;
    assert(name.skip(3) =~= num);
    assert(name.skip(3) =~= n);
}

/// What stands behind `Gpio` in a pad's name tells the pin.
proof fn lemma_behind_gpio(behind: Seq<char>, gpio: Seq<char>) -> (name: Seq<char>)
    requires
        pin_named("Gpio"@ + behind, gpio),
    ensures
        name == behind,
        pin_named_behind(name, gpio),
{
    reveal_strlit("Gpio");
    let pad = "Gpio"@ + behind;
    let name = choose|name: Seq<char>| #[trigger]
        is_cat(pad, "Gpio"@, name) && pin_named_behind(name, gpio);
    assert(pad.skip(4) =~= behind);
    assert(pad.skip(4) =~= name);
    name
}

/// A text is cut behind its first two bytes in one way only.
proof fn lemma_cut_unique(s: Seq<char>, a: Seq<char>, b: Seq<char>, c: Seq<char>, d: Seq<char>)
    requires
        is_cut(s, a, b),
        is_cut(s, c, d),
    ensures
        a == c,
        b == d,
{
    assert(s[0] == a[0] && s[0] == c[0]);
    assert(a.len() == c.len());
    assert(s.take(a.len() as int) =~= a && s.take(a.len() as int) =~= c);
    assert(s.skip(a.len() as int) =~= b && s.skip(a.len() as int) =~= d);
}

/// The pin of a pad of the banks `Emc` and `Sd` is `GPIO_`, the bank in upper case,
/// an underscore, the two bytes of the sub-bank, an underscore and the rest of the
/// pad's name.
pub proof fn lemma_sub_bank_pin(bank: Seq<char>, sub: Seq<char>, num: Seq<char>, gpio: Seq<char>)
    requires
        bank == "Emc"@ || bank == "Sd"@,
        is_two_bytes(sub),
        pin_named("Gpio"@ + (bank + (sub + num)), gpio),
    ensures
        gpio == "GPIO_"@ + uppercase(bank) + "_"@ + sub + "_"@ + num,
{
    reveal_strlit("Gpio");
    reveal_strlit("Aon");
    reveal_strlit("Emc");
    reveal_strlit("Sd");
    let rest = sub + num;
    let name = lemma_behind_gpio(bank + rest, gpio);
    assert(name[0] == bank[0]);
    assert(is_cat(name, bank, rest));
    assert(begins(name, bank));
    let pin = choose|pin: Seq<char>| #[trigger]
        is_cat(name, bank, pin) && sub_bank_named(bank, pin, gpio);
    assert(name.skip(bank.len() as int) =~= rest);
    assert(name.skip(bank.len() as int) =~= pin);
    let (a, b) = choose|a: Seq<char>, b: Seq<char>| #[trigger]
        is_cut(pin, a, b) && gpio == "GPIO_"@ + uppercase(bank) + "_"@ + a + "_"@ + b;
    assert(is_cut(rest, sub, num));
    lemma_cut_unique(rest, sub, num, a, b);
}

/// The pin of a pad of any other bank is `GPIO_`, the two bytes of the bank in upper
/// case, an underscore and the rest of the pad's name.
pub proof fn lemma_bank_pin(bank: Seq<char>, num: Seq<char>, gpio: Seq<char>)
    requires
        is_two_bytes(bank),
        !begins(bank + num, "Aon"@),
        !begins(bank + num, "Emc"@),
        !begins(bank + num, "Sd"@),
        pin_named("Gpio"@ + (bank + num), gpio),
    ensures
        gpio == "GPIO_"@ + uppercase(bank) + "_"@ + num,
{
    let name = lemma_behind_gpio(bank + num, gpio);
    assert(is_cut(name, bank, num));
    let (a, b) = choose|a: Seq<char>, b: Seq<char>| #[trigger]
        is_cut(name, a, b) && gpio == "GPIO_"@ + uppercase(a) + "_"@ + b;
    lemma_cut_unique(name, bank, num, a, b);
}

} // verus!
