//! Generates a PAC directly from a register map: what is printed and written, in
//! order.
use crate::commands::mux::{for_one_mux, mux_of, pad_of, read_pad, Mux, MuxFault, MuxView};
use crate::ir::{views, FieldSetView, IrView, IR};
use crate::name_map::Entries;
use crate::seqs::one_if;
use crate::text::{copy_opt, opt_chars};
use vstd::prelude::*;

verus! {

broadcast use vstd::seq::group_seq_axioms;

/// What to generate.
#[derive(Debug)]
pub struct Generate {
    /// SVD file path.
    pub svd: String,
    /// Transforms file paths.
    pub transform: Vec<String>,
    /// Namespaces added to each extracted peripheral, by the name of the mode.
    pub namespaces: String,
    /// Output YAML path for the whole IR. Useful for debugging.
    pub debug_ir_output: Option<String>,
    /// Output directory of the PAC files.
    pub output: Option<String>,
}

/// A step of the generation.
#[derive(Debug)]
pub enum Step {
    /// Print a line.
    Print(String),
    /// Warn with a line.
    Warn(String),
    /// Print the code for a pad.
    Mux(Mux),
    /// Give up: the code for a pad cannot be made.
    Fault(MuxFault),
    /// Write the register map to this file.
    DebugIr(String),
    /// Write the library into this directory, or into the current one.
    Lib(Option<String>),
    /// Write the linker script for this device into the same directory.
    DeviceX(Option<String>, String),
    /// Give up: there is no device to write a linker script for.
    NoDevice,
}

/// What a step holds.
#[verifier::ext_equal]
pub enum StepView {
    Print(Seq<char>),
    Warn(Seq<char>),
    Mux(MuxView),
    Fault(MuxFault),
    DebugIr(Seq<char>),
    Lib(Option<Seq<char>>),
    DeviceX(Option<Seq<char>>, Seq<char>),
    NoDevice,
}

impl View for Step {
    type V = StepView;

    open spec fn view(&self) -> StepView {
        match self {
            Step::Print(line) => StepView::Print(line@),
            Step::Warn(line) => StepView::Warn(line@),
            Step::Mux(mux) => StepView::Mux(mux@),
            Step::Fault(fault) => StepView::Fault(*fault),
            Step::DebugIr(path) => StepView::DebugIr(path@),
            Step::Lib(dir) => StepView::Lib(opt_chars(*dir)),
            Step::DeviceX(dir, device) => StepView::DeviceX(opt_chars(*dir), device@),
            Step::NoDevice => StepView::NoDevice,
        }
    }
}

/// The warning about a pad none of whose modes has a daisy setting.
pub open spec fn no_daisy_text(gpio: Seq<char>) -> Seq<char> {
    "Found no input daisy for "@ + gpio + ". That is probably wrong."@
}

/// The warning about a pad none of whose modes has a daisy setting.
fn warn_of_no_daisy(gpio: &str) -> (r: Step)
    ensures
        r@ == StepView::Warn(no_daisy_text(gpio@)),
{
    Step::Warn(
        "Found no input daisy for ".to_owned().concat(gpio).concat(". That is probably wrong."),
    )
}

/// The steps before a fault in the code of a pad: a pad without daisy settings is
/// warned of before its register is looked for.
pub open spec fn fault_steps(fs_name: Seq<char>, fault: MuxFault) -> Seq<StepView> {
    match (fault, pad_of(fs_name)) {
        (MuxFault::MissingMuxRegisterAndDaisies, Some(pad)) => seq![
            StepView::Warn(no_daisy_text(pad.struct_name)),
        ],
        _ => seq![],
    }
}

/// The steps for the code of a pad: code that sets no daisy register is probably
/// wrong.
pub open spec fn mux_steps(mux: MuxView) -> Seq<StepView> {
    one_if(
        mux.arms.len() == 0,
        StepView::Warn(no_daisy_text(mux.gpio)),
    ).push(StepView::Mux(mux))
}

/// The steps for the pads of the fieldsets, in the order of their names, and the
/// fault at which they stop.
pub open spec fn pad_steps(ir: IrView, sets: Entries<FieldSetView>) -> (
    Seq<StepView>,
    Option<MuxFault>,
)
    decreases sets.len(),
{
    if sets.len() == 0 {
        (seq![], None)
    } else {
        let (done, fault) = pad_steps(ir, sets.drop_last());
        if fault is Some {
            (done, fault)
        } else {
            match mux_of(ir, sets.last().0) {
                Ok(Some(mux)) => (done + mux_steps(mux), None),
                Ok(None) => (done, None),
                Err(e) => (done + fault_steps(sets.last().0, e), Some(e)),
            }
        }
    }
}

/// The steps that write files.
pub open spec fn write_steps(
    ir: IrView,
    debug_ir_output: Option<Seq<char>>,
    output: Option<Seq<char>>,
) -> Seq<StepView> {
    one_if(debug_ir_output is Some, StepView::DebugIr(debug_ir_output->0)).push(
        StepView::Lib(output),
    ).push(
        if ir.devices.len() == 0 {
            StepView::NoDevice
        } else {
            StepView::DeviceX(output, ir.devices[0].0)
        },
    )
}

/// All steps of the generation.
pub open spec fn steps_of(
    ir: IrView,
    debug_ir_output: Option<Seq<char>>,
    output: Option<Seq<char>>,
) -> Seq<StepView> {
    let (pads, fault) = pad_steps(ir, ir.fieldsets);
    seq![StepView::Print("use super::*;"@)] + pads + match fault {
        Some(e) => seq![StepView::Fault(e)],
        None => write_steps(ir, debug_ir_output, output),
    }
}

/// What has stopped at a fault stays there.
proof fn lemma_pad_steps_stop(ir: IrView, sets: Entries<FieldSetView>, n: int)
    requires
        0 <= n <= sets.len(),
        pad_steps(ir, sets.take(n)).1 is Some,
    ensures
        pad_steps(ir, sets) == pad_steps(ir, sets.take(n)),
    decreases sets.len() - n,
{
    if n == sets.len() {
        assert(sets.take(n) =~= sets);
    } else {
        assert(sets.take(n + 1).drop_last() =~= sets.take(n));
        lemma_pad_steps_stop(ir, sets, n + 1);
    }
}

/// The steps of the generation for a register map.
pub fn generate(args: &Generate, ir: &IR) -> (r: Vec<Step>)
    ensures
        views(r@) == steps_of(ir@, opt_chars(args.debug_ir_output), opt_chars(args.output)),
{
    let ghost sets = ir@.fieldsets;
    let ghost head = seq![StepView::Print("use super::*;"@)];
    let mut steps: Vec<Step> = Vec::new();
    steps.push(Step::Print("use super::*;".to_owned()));
    assert(views(steps@) =~= head + pad_steps(ir@, sets.take(0)).0);
    let mut i: usize = 0;
    while i < ir.fieldsets.len()
        invariant
            i <= sets.len(),
            sets == ir@.fieldsets,
            head == seq![StepView::Print("use super::*;"@)],
            pad_steps(ir@, sets.take(i as int)).1 is None,
            views(steps@) == head + pad_steps(ir@, sets.take(i as int)).0,
        decreases sets.len() - i,
    {
        let name = ir.fieldsets.key_at(i);
        let ghost before = views(steps@);
        let ghost done = pad_steps(ir@, sets.take(i as int)).0;
        proof {
            assert(sets.take(i + 1).drop_last() =~= sets.take(i as int));
            assert(sets.take(i + 1).last() == sets[i as int]);
        }
        match for_one_mux(name.as_str(), ir) {
            Ok(Some(mux)) => {
                if !mux.sets_daisies() {
                    steps.push(warn_of_no_daisy(mux.gpio.as_str()));
                }
                let ghost code = mux@;
                steps.push(Step::Mux(mux));
                assert(views(steps@) =~= before + mux_steps(code));
                assert(views(steps@) =~= head + (done + mux_steps(code)));
            },
            Ok(None) => {},
            Err(e) => {
                if let (MuxFault::MissingMuxRegisterAndDaisies, Some(pad)) = (
                    e,
                    read_pad(name.as_str()),
                ) {
                    steps.push(warn_of_no_daisy(pad.struct_name.as_str()));
                }
                steps.push(Step::Fault(e));
                proof {
                    lemma_pad_steps_stop(ir@, sets, i + 1);
                    let more = fault_steps(name@, e);
                    assert(views(steps@) =~= before + more + seq![StepView::Fault(e)]);
                    assert(before + more =~= head + (done + more));
                }
                return steps;
            },
        }
        i += 1;
    }
    assert(sets.take(i as int) =~= sets);
    let ghost before = views(steps@);
    if let Some(path) = &args.debug_ir_output {
        steps.push(Step::DebugIr(path.clone()));
    }
    steps.push(Step::Lib(copy_opt(&args.output)));
    if ir.devices.len() == 0 {
        steps.push(Step::NoDevice);
    } else {
        steps.push(Step::DeviceX(copy_opt(&args.output), ir.devices.key_at(0).clone()));
    }
    assert(views(steps@) =~= before + write_steps(
        ir@,
        opt_chars(args.debug_ir_output),
        opt_chars(args.output),
    ));
    steps
}

} // verus!
