//! What holds of the code that selects a pad's mode, and of the generation as a
//! whole.
use crate::commands::generate::{fault_steps, mux_steps, pad_steps, steps_of, write_steps, StepView};
use crate::commands::mux::{
    alt_mode_of, arm_of, arms_of, candidate, candidates_in, daisies_of, daisy_fieldset,
    daisy_from, daisy_prefix, gpio_name, iomux_named, lowercase, mux_enum_of, mux_enum_path,
    mux_of, of_variant, pad_of, pin_of, register_of, uppercase, with_daisy, AltModeView,
    DaisyView, Iomux, MuxArmView, MuxFault, MuxView, PadView,
};
use crate::ir::{BlockView, EnumVariantView, FieldSetView, IrView};
use crate::name_map::{lookup, Entries};
use crate::seqs::{
    collect, first, gather, is_first, lemma_first_is_element, lemma_gather_source,
    lemma_has_first,
};
use crate::text::{first_occurrence, split};
use vstd::prelude::*;

verus! {

broadcast use vstd::seq::group_seq_axioms;

/// What is collected is what `f` gives for each element.
pub proof fn lemma_collected<A, B, E>(s: Seq<A>, f: spec_fn(A) -> Result<B, E>, out: Seq<B>)
    requires
        collect(s, f) == Ok::<Seq<B>, E>(out),
    ensures
        out.len() == s.len(),
        forall|i: int| 0 <= i < s.len() ==> f(#[trigger] s[i]) == Ok::<B, E>(out[i]),
    decreases s.len(),
{
    if s.len() > 0 {
        let init = s.drop_last();
        let done = collect(init, f)->Ok_0;
        lemma_collected(init, f, done);
        assert forall|i: int| 0 <= i < s.len() implies f(#[trigger] s[i]) == Ok::<B, E>(out[i]) by {
            if i < init.len() {
                assert(f(init[i]) == Ok::<B, E>(done[i]));
            }
        }
    }
}

/// What an element gives is among what is gathered.
pub proof fn lemma_gathered<A, E>(s: Seq<A>, f: spec_fn(A) -> Seq<E>, i: int, k: int) -> (at: int)
    requires
        0 <= i < s.len(),
        0 <= k < f(s[i]).len(),
    ensures
        0 <= at < gather(s, f).len(),
        gather(s, f)[at] == f(s[i])[k],
    decreases s.len(),
{
    let init = s.drop_last();
    if i < init.len() {
        let at = lemma_gathered(init, f, i, k);
        at
    } else {
        gather(init, f).len() + k
    }
}

/// The block that an arm writes to.
pub open spec fn block_of(ir: IrView, iomux: Iomux) -> Option<BlockView> {
    match iomux {
        Iomux::Iomuxc => lookup(ir.blocks, "iomuxc::Iomuxc"@),
        Iomux::IomuxcAon => lookup(ir.blocks, "iomuxc_aon::IomuxcAon"@),
    }
}

/// The full name of the pin of a pad.
pub open spec fn pin_name(pad: PadView) -> Seq<char> {
    let pin = (pin_of(pad.struct_name)->Ok_0)->0;
    gpio_name(uppercase(pin.bank), pin.num)
}

/// The modes of the pad of a fieldset.
pub open spec fn modes_of(ir: IrView, fs_name: Seq<char>) -> Seq<EnumVariantView> {
    (lookup(ir.enums, mux_enum_path(pad_of(fs_name)->0))->0).variants
}

/// The name of the daisy variant that a mode needs: it goes by what stands before
/// the first underscore of the mode's name.
pub open spec fn daisy_variant_of(gpio: Seq<char>, mode: Seq<char>) -> Seq<char> {
    "SELECT_"@ + gpio + "_"@ + mode.take(first_occurrence(mode, "_"@)->0)
}

/// Whether an enum of the register map has a variant of this name.
pub open spec fn enum_has(ir: IrView, enumm: Seq<char>, variant: Seq<char>) -> bool {
    exists|i: int, k: int|
        0 <= i < ir.enums.len() && 0 <= k < ir.enums[i].1.variants.len() && ir.enums[i].0 == enumm
            && (#[trigger] ir.enums[i].1.variants[k]).name == variant
}

/// A daisy setting is a variant that begins with the prefix, with the fieldset of
/// its enum.
proof fn lemma_daisy(ir: IrView, gpio: Seq<char>, daisies: Seq<DaisyView>, k: int)
    requires
        daisies_of(ir, gpio) == Ok::<Seq<DaisyView>, MuxFault>(daisies),
        0 <= k < daisies.len(),
    ensures
        daisy_fieldset(ir, daisies[k].enumm) == Ok::<Seq<char>, MuxFault>(daisies[k].fs_name),
        enum_has(ir, daisies[k].enumm, daisies[k].variant),
        daisy_prefix(gpio).is_prefix_of(daisies[k].variant),
{
    let f = candidates_in(daisy_prefix(gpio));
    let all = gather(ir.enums, f);
    lemma_collected(all, daisy_from(ir), daisies);
    assert(daisy_from(ir)(all[k]) == Ok::<DaisyView, MuxFault>(daisies[k]));
    let i = lemma_gather_source(ir.enums, f, k);
    let (name, e) = ir.enums[i];
    let g = candidate(daisy_prefix(gpio), name);
    let some = f(ir.enums[i]);
    assert(some == gather(e.variants, g));
    let j = choose|j: int| 0 <= j < some.len() && some[j] == all[k];
    let v = lemma_gather_source(e.variants, g, j);
    assert(g(e.variants[v]).contains(some[j]));
    assert(ir.enums[i].1.variants[v].name == daisies[k].variant);
}

/// Every variant that begins with the prefix is a daisy setting.
proof fn lemma_daisy_found(
    ir: IrView,
    gpio: Seq<char>,
    daisies: Seq<DaisyView>,
    enumm: Seq<char>,
    variant: Seq<char>,
) -> (k: int)
    requires
        daisies_of(ir, gpio) == Ok::<Seq<DaisyView>, MuxFault>(daisies),
        enum_has(ir, enumm, variant),
        daisy_prefix(gpio).is_prefix_of(variant),
    ensures
        0 <= k < daisies.len(),
        daisies[k].variant == variant,
        daisies[k].enumm == enumm,
{
    let f = candidates_in(daisy_prefix(gpio));
    let all = gather(ir.enums, f);
    lemma_collected(all, daisy_from(ir), daisies);
    let (i, v) = choose|i: int, v: int|
        0 <= i < ir.enums.len() && 0 <= v < ir.enums[i].1.variants.len() && ir.enums[i].0 == enumm
            && (#[trigger] ir.enums[i].1.variants[v]).name == variant;
    let e = ir.enums[i].1;
    let g = candidate(daisy_prefix(gpio), enumm);
    assert(g(e.variants[v]) =~= seq![(enumm, variant)]);
    let j = lemma_gathered(e.variants, g, v, 0);
    assert(f(ir.enums[i]) == gather(e.variants, g));
    let k = lemma_gathered(ir.enums, f, i, j);
    assert(daisy_from(ir)(all[k]) == Ok::<DaisyView, MuxFault>(daisies[k]));
    k
}

/// Each arm of a pad's code stands for one of the pad's modes. It writes the daisy
/// variant that goes by the mode's name, of an enum that has it, into a register
/// of the block that it names, whose fieldset has one field and that enum.
pub proof fn lemma_arm(ir: IrView, fs_name: Seq<char>, mux: MuxView, k: int) -> (r: (int, Seq<char>))
    requires
        mux_of(ir, fs_name) == Ok::<Option<MuxView>, MuxFault>(Some(mux)),
        0 <= k < mux.arms.len(),
    ensures
        ({
            let (v, enumm) = r;
            let arm = mux.arms[k];
            let modes = modes_of(ir, fs_name);
            let gpio = pin_name(pad_of(fs_name)->0);
            &&& 0 <= v < modes.len()
            &&& arm.mux_enum == mux.mux_enum
            &&& arm.mux_variant == modes[v].name
            &&& arm.daisy_variant == daisy_variant_of(gpio, modes[v].name)
            &&& enum_has(ir, enumm, arm.daisy_variant)
            &&& arm.daisy_enum == split(enumm, "::"@).last()
            &&& daisy_fieldset(ir, enumm) is Ok
            &&& block_of(ir, arm.daisy_block) is Some
            &&& register_of(
                block_of(ir, arm.daisy_block)->0,
                daisy_fieldset(ir, enumm)->Ok_0,
            ) == Some(arm.daisy_register)
        }),
{
    let pad = pad_of(fs_name)->0;
    let gpio = pin_name(pad);
    let iomuxc = lookup(ir.blocks, "iomuxc::Iomuxc"@)->0;
    let aon = lookup(ir.blocks, "iomuxc_aon::IomuxcAon"@)->0;
    let variants = modes_of(ir, fs_name);
    let daisies = daisies_of(ir, gpio)->Ok_0;
    let f = alt_mode_of(mux_enum_of(pad), gpio, daisies);
    let modes = collect(variants, f)->Ok_0;
    let pairs = gather(modes, with_daisy());
    assert(mux.arms == arms_of(iomuxc, aon, modes)->Ok_0);
    lemma_collected(pairs, arm_of(iomuxc, aon), mux.arms);
    assert(arm_of(iomuxc, aon)(pairs[k]) == Ok::<MuxArmView, MuxFault>(mux.arms[k]));
    let v = lemma_gather_source(modes, with_daisy(), k);
    assert(with_daisy()(modes[v]).contains(pairs[k]));
    lemma_collected(variants, f, modes);
    assert(f(variants[v]) == Ok::<AltModeView, MuxFault>(modes[v]));
    let daisy = pairs[k].1;
    let wanted = daisy_variant_of(gpio, variants[v].name);
    assert(modes[v].daisy == first(daisies, of_variant(wanted)));
    lemma_first_is_element(daisies, of_variant(wanted));
    let d = choose|d: int|
        #[trigger] is_first(daisies, of_variant(wanted), d) && daisies[d] == first(
            daisies,
            of_variant(wanted),
        )->0;
    assert(daisies[d] == daisy);
    lemma_daisy(ir, gpio, daisies, d);
    (v, daisy.enumm)
}

/// Every mode of the pad for which some enum has the daisy variant that goes by the
/// mode's name has an arm.
pub proof fn lemma_mode_has_arm(
    ir: IrView,
    fs_name: Seq<char>,
    mux: MuxView,
    v: int,
    enumm: Seq<char>,
) -> (k: int)
    requires
        mux_of(ir, fs_name) == Ok::<Option<MuxView>, MuxFault>(Some(mux)),
        0 <= v < modes_of(ir, fs_name).len(),
        enum_has(
            ir,
            enumm,
            daisy_variant_of(pin_name(pad_of(fs_name)->0), modes_of(ir, fs_name)[v].name),
        ),
        daisy_prefix(pin_name(pad_of(fs_name)->0)).is_prefix_of(
            daisy_variant_of(pin_name(pad_of(fs_name)->0), modes_of(ir, fs_name)[v].name),
        ),
    ensures
        0 <= k < mux.arms.len(),
        mux.arms[k].mux_variant == modes_of(ir, fs_name)[v].name,
{
    let pad = pad_of(fs_name)->0;
    let gpio = pin_name(pad);
    let iomuxc = lookup(ir.blocks, "iomuxc::Iomuxc"@)->0;
    let aon = lookup(ir.blocks, "iomuxc_aon::IomuxcAon"@)->0;
    let variants = modes_of(ir, fs_name);
    let daisies = daisies_of(ir, gpio)->Ok_0;
    let f = alt_mode_of(mux_enum_of(pad), gpio, daisies);
    let modes = collect(variants, f)->Ok_0;
    let pairs = gather(modes, with_daisy());
    let wanted = daisy_variant_of(gpio, variants[v].name);
    lemma_collected(variants, f, modes);
    assert(f(variants[v]) == Ok::<AltModeView, MuxFault>(modes[v]));
    let d = lemma_daisy_found(ir, gpio, daisies, enumm, wanted);
    lemma_has_first(daisies, of_variant(wanted), d);
    assert(modes[v].daisy is Some);
    assert(with_daisy()(modes[v]) =~= seq![(modes[v], modes[v].daisy->0)]);
    let k = lemma_gathered(modes, with_daisy(), v, 0);
    lemma_collected(pairs, arm_of(iomuxc, aon), mux.arms);
    assert(arm_of(iomuxc, aon)(pairs[k]) == Ok::<MuxArmView, MuxFault>(mux.arms[k]));
    k
}

/// A fieldset that is not the mux fieldset of a pad has no code.
pub proof fn lemma_others_skipped(ir: IrView, fs_name: Seq<char>)
    requires
        pad_of(fs_name) is None,
    ensures
        mux_of(ir, fs_name) == Ok::<Option<MuxView>, MuxFault>(None),
{
}

/// A dummy pad of a mux block has no code.
pub proof fn lemma_dummy_skipped(ir: IrView, fs_name: Seq<char>, pin: Seq<char>)
    requires
        pad_of(fs_name) is Some,
        (pad_of(fs_name)->0).struct_name == "Gpio"@ + pin + "Dummy"@,
        iomux_named(lowercase((pad_of(fs_name)->0).instance)) is Some,
        block_of(ir, Iomux::Iomuxc) is Some,
        block_of(ir, Iomux::IomuxcAon) is Some,
    ensures
        mux_of(ir, fs_name) == Ok::<Option<MuxView>, MuxFault>(None),
{
    let name = (pad_of(fs_name)->0).struct_name;
    let gpio = "Gpio"@.len() as int;
    let rest = pin + "Dummy"@;
    assert(name.take(gpio) =~= "Gpio"@);
    assert(name.skip(gpio) =~= rest);
    assert(rest.skip(pin.len() as int) =~= "Dummy"@);
    assert("Gpio"@.is_prefix_of(name));
    assert("Dummy"@.is_suffix_of(rest));
}

/// The register that holds the mode is the first of the pad's own mux block that
/// has the pad's fieldset.
pub proof fn lemma_mode_register(ir: IrView, fs_name: Seq<char>, mux: MuxView)
    requires
        mux_of(ir, fs_name) == Ok::<Option<MuxView>, MuxFault>(Some(mux)),
    ensures
        iomux_named(lowercase((pad_of(fs_name)->0).instance)) == Some(mux.iomux),
        block_of(ir, mux.iomux) is Some,
        register_of(block_of(ir, mux.iomux)->0, fs_name) == Some(mux.register),
        mux.gpio == (pad_of(fs_name)->0).struct_name,
        mux.mux_enum == mux_enum_of(pad_of(fs_name)->0),
{
}

/// Whether the pad of fieldset `i` has the fault `e`, and no pad before has one.
pub open spec fn faults_first(
    ir: IrView,
    sets: Entries<FieldSetView>,
    e: MuxFault,
    i: int,
) -> bool {
    &&& 0 <= i < sets.len()
    &&& mux_of(ir, sets[i].0) == Err::<Option<MuxView>, MuxFault>(e)
    &&& forall|j: int| 0 <= j < i ==> mux_of(ir, (#[trigger] sets[j]).0) is Ok
}

/// The generation of the pads' code stops at a fault exactly where one of the
/// fieldsets has one; it stops at the first.
pub proof fn lemma_pad_steps_fault(ir: IrView, sets: Entries<FieldSetView>)
    ensures
        match pad_steps(ir, sets).1 {
            Some(e) => exists|i: int| #[trigger] faults_first(ir, sets, e, i),
            None => forall|i: int| 0 <= i < sets.len() ==> mux_of(ir, (#[trigger] sets[i]).0) is Ok,
        },
    decreases sets.len(),
{
    if sets.len() > 0 {
        let init = sets.drop_last();
        let n = sets.len() - 1;
        lemma_pad_steps_fault(ir, init);
        match pad_steps(ir, init).1 {
            Some(e) => {
                let i = choose|i: int| #[trigger] faults_first(ir, init, e, i);
                assert(init[i] == sets[i]);
                assert forall|j: int| 0 <= j < i implies mux_of(ir, (#[trigger] sets[j]).0) is Ok by {
                    assert(mux_of(ir, init[j].0) is Ok);
                }
                assert(faults_first(ir, sets, e, i));
            },
            None => {
                assert forall|j: int| 0 <= j < n implies mux_of(ir, (#[trigger] sets[j]).0) is Ok by {
                    assert(mux_of(ir, init[j].0) is Ok);
                }
                match mux_of(ir, sets[n].0) {
                    Ok(_) => {},
                    Err(e) => {
                        assert(faults_first(ir, sets, e, n));
                    },
                }
            },
        }
    }
}

/// Whether a step writes a file.
pub open spec fn writes(s: StepView) -> bool {
    s is DebugIr || s is Lib || s is DeviceX
}

/// The steps for pads write no file and give nothing up, and each piece of code
/// among them is that of a fieldset.
pub proof fn lemma_pad_steps(ir: IrView, sets: Entries<FieldSetView>, k: int)
    requires
        0 <= k < pad_steps(ir, sets).0.len(),
    ensures
        ({
            let step = pad_steps(ir, sets).0[k];
            &&& step is Warn || step is Mux
            &&& step matches StepView::Mux(mux) ==> exists|i: int|
                0 <= i < sets.len() && mux_of(ir, (#[trigger] sets[i]).0) == Ok::<
                    Option<MuxView>,
                    MuxFault,
                >(Some(mux))
        }),
    decreases sets.len(),
{
    let init = sets.drop_last();
    let n = sets.len() - 1;
    let done = pad_steps(ir, init).0;
    if k < done.len() {
        lemma_pad_steps(ir, init, k);
        if let StepView::Mux(mux) = done[k] {
            let i = choose|i: int|
                0 <= i < init.len() && mux_of(ir, (#[trigger] init[i]).0) == Ok::<
                    Option<MuxView>,
                    MuxFault,
                >(Some(mux));
            assert(mux_of(ir, sets[i].0) == mux_of(ir, init[i].0));
        }
    } else {
        match mux_of(ir, sets[n].0) {
            Ok(mux) => {
                assert(pad_steps(ir, sets).0[k] == mux_steps(mux->0)[k - done.len()]);
            },
            Err(e) => {
                assert(pad_steps(ir, sets).0[k] == fault_steps(sets[n].0, e)[k - done.len()]);
            },
        }
    }
}

/// Every pad whose code can be made before a fault has its code printed.
pub proof fn lemma_mux_printed(ir: IrView, sets: Entries<FieldSetView>, i: int, mux: MuxView)
    requires
        pad_steps(ir, sets).1 is None,
        0 <= i < sets.len(),
        mux_of(ir, sets[i].0) == Ok::<Option<MuxView>, MuxFault>(Some(mux)),
    ensures
        pad_steps(ir, sets).0.contains(StepView::Mux(mux)),
    decreases sets.len(),
{
    let init = sets.drop_last();
    let n = sets.len() - 1;
    let all = pad_steps(ir, sets).0;
    let done = pad_steps(ir, init).0;
    if i < n {
        lemma_mux_printed(ir, init, i, mux);
        let k = choose|k: int| 0 <= k < done.len() && done[k] == StepView::Mux(mux);
        assert(all[k] == StepView::Mux(mux));
    } else {
        let last = mux_steps(mux).len() - 1;
        assert(mux_steps(mux)[last] == StepView::Mux(mux));
        assert(all[done.len() + last] == StepView::Mux(mux));
    }
}

/// A generation either writes its files or gives up at the first pad that has a
/// fault: then it writes none.
pub proof fn lemma_all_or_nothing(
    ir: IrView,
    debug_ir_output: Option<Seq<char>>,
    output: Option<Seq<char>>,
)
    ensures
        ({
            let steps = steps_of(ir, debug_ir_output, output);
            if exists|i: int|
                0 <= i < ir.fieldsets.len() && mux_of(ir, (#[trigger] ir.fieldsets[i]).0) is Err {
                &&& steps.last() is Fault
                &&& forall|k: int| 0 <= k < steps.len() ==> !writes(#[trigger] steps[k])
            } else {
                &&& forall|k: int| 0 <= k < steps.len() ==> !(#[trigger] steps[k] is Fault)
                &&& steps.contains(StepView::Lib(output))
                &&& debug_ir_output matches Some(path) ==> steps.contains(StepView::DebugIr(path))
                &&& ir.devices.len() > 0 ==> steps.last() == StepView::DeviceX(
                    output,
                    ir.devices[0].0,
                )
                &&& ir.devices.len() == 0 ==> steps.last() is NoDevice
            }
        }),
{
    let (pads, fault) = pad_steps(ir, ir.fieldsets);
    let steps = steps_of(ir, debug_ir_output, output);
    let head = seq![StepView::Print("use super::*;"@)];
    lemma_pad_steps_fault(ir, ir.fieldsets);
    assert forall|k: int| 0 <= k < (head + pads).len() implies !writes(
        #[trigger] (head + pads)[k],
    ) && !((head + pads)[k] is Fault) by {
        if k > 0 {
            lemma_pad_steps(ir, ir.fieldsets, k - 1);
        }
    }
    match fault {
        Some(e) => {
            let i = choose|i: int| #[trigger] faults_first(ir, ir.fieldsets, e, i);
            assert(mux_of(ir, ir.fieldsets[i].0) is Err);
            assert forall|k: int| 0 <= k < steps.len() implies !writes(#[trigger] steps[k]) by {
                if k < (head + pads).len() {
                    assert(steps[k] == (head + pads)[k]);
                }
            }
        },
        None => {
            let tail = write_steps(ir, debug_ir_output, output);
            assert(steps == head + pads + tail);
            assert forall|k: int| 0 <= k < steps.len() implies !(#[trigger] steps[k] is Fault) by {
                if k < (head + pads).len() {
                    assert(steps[k] == (head + pads)[k]);
                } else {
                    assert(steps[k] == tail[k - (head + pads).len()]);
                }
            }
            let n = (head + pads).len() as int;
            assert(tail[tail.len() - 2] == StepView::Lib(output));
            assert(steps[n + tail.len() - 2] == StepView::Lib(output));
            if let Some(path) = debug_ir_output {
                assert(tail[0] == StepView::DebugIr(path));
                assert(steps[n] == StepView::DebugIr(path));
            }
            assert(steps.last() == tail.last());
        },
    }
}

} // verus!
