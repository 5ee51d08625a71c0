//! What a generation prints and writes, step by step.
use crate::commands::generate::{
    fault_steps, mux_steps, pad_steps, steps_of, write_steps, StepView,
};
use crate::commands::mux::{mux_of, MuxFault, MuxView};
use crate::commands::pad_laws::{lemma_no_code, lemma_pad_read, pad_path};
use crate::ir::{FieldSetView, IrView};
use crate::name_map::Entries;
use crate::seqs::{gather, lemma_gather_append, lemma_gather_empty, total};
use vstd::prelude::*;

verus! {

broadcast use vstd::seq::group_seq_axioms;

/// How many steps the pad of a fieldset takes: one for its code, and one more for
/// the warning about code that sets no daisy register.
pub open spec fn step_count(ir: IrView) -> spec_fn((Seq<char>, FieldSetView)) -> nat {
    |e: (Seq<char>, FieldSetView)|
        match mux_of(ir, e.0) {
            Ok(Some(mux)) => if mux.arms.len() == 0 {
                2nat
            } else {
                1nat
            },
            _ => 0nat,
        }
}

/// The warning about a pad that sets no daisy register.
pub open spec fn is_warning(s: StepView, pad: Seq<char>) -> bool {
    s == StepView::Warn("Found no input daisy for "@ + pad + ". That is probably wrong."@)
}

/// Whether the steps from `at` on begin with those of a pad.
pub open spec fn prints_at(steps: Seq<StepView>, at: int, mux: MuxView) -> bool {
    &&& 0 <= at < steps.len()
    &&& if mux.arms.len() == 0 {
        at + 1 < steps.len() && is_warning(steps[at], mux.gpio) && steps[at + 1] == StepView::Mux(
            mux,
        )
    } else {
        steps[at] == StepView::Mux(mux)
    }
}

/// Where no pad has a fault, the steps are those of the pads, one behind the other.
proof fn lemma_pads(ir: IrView, sets: Entries<FieldSetView>)
    requires
        forall|i: int| 0 <= i < sets.len() ==> mux_of(ir, (#[trigger] sets[i]).0) is Ok,
    ensures
        pad_steps(ir, sets).1 is None,
        pad_steps(ir, sets).0.len() == total(sets, step_count(ir)),
        forall|i: int, mux: MuxView|
            0 <= i < sets.len() && mux_of(ir, (#[trigger] sets[i]).0) == Ok::<
                Option<MuxView>,
                MuxFault,
            >(Some(mux)) ==> #[trigger] prints_at(
                pad_steps(ir, sets).0,
                total(sets.take(i), step_count(ir)) as int,
                mux,
            ),
    decreases sets.len(),
{
    if sets.len() > 0 {
        let init = sets.drop_last();
        let n = sets.len() - 1;
        let w = step_count(ir);
        assert forall|i: int| 0 <= i < init.len() implies mux_of(
            ir,
            (#[trigger] init[i]).0,
        ) is Ok by {
            assert(mux_of(ir, sets[i].0) is Ok);
        }
        lemma_pads(ir, init);
        assert(mux_of(ir, sets[n].0) is Ok);
        let done = pad_steps(ir, init).0;
        let all = pad_steps(ir, sets).0;
        assert(sets.take(n) =~= init);
        assert forall|i: int, mux: MuxView|
            0 <= i < sets.len() && mux_of(ir, (#[trigger] sets[i]).0) == Ok::<
                Option<MuxView>,
                MuxFault,
            >(Some(mux)) implies #[trigger] prints_at(all, total(sets.take(i), w) as int, mux) by {
            if i < n {
                assert(init[i] == sets[i]);
                assert(init.take(i) =~= sets.take(i));
                let at = total(init.take(i), w) as int;
                assert(prints_at(done, at, mux));
                assert(all[at] == done[at]);
            } else {
                let own = mux_steps(mux);
                assert(all == done + own);
                assert(all[done.len() as int] == own[0]);
                if mux.arms.len() == 0 {
                    assert(all[done.len() as int + 1] == own[1]);
                }
            }
        }
    }
}

/// A pad that has a fault ends the steps of the pads before it.
proof fn lemma_stopped(ir: IrView, sets: Entries<FieldSetView>, n: int, e: MuxFault)
    requires
        0 <= n < sets.len(),
        mux_of(ir, sets[n].0) == Err::<Option<MuxView>, MuxFault>(e),
        pad_steps(ir, sets.take(n)).1 is None,
    ensures
        pad_steps(ir, sets) == (
            pad_steps(ir, sets.take(n)).0 + fault_steps(sets[n].0, e),
            Some(e),
        ),
    decreases sets.len(),
{
    let init = sets.drop_last();
    if n == sets.len() - 1 {
        assert(sets.take(n) =~= init);
    } else {
        assert(init.take(n) =~= sets.take(n));
        assert(init[n] == sets[n]);
        lemma_stopped(ir, init, n, e);
    }
}

/// Whether the steps from `at` on are those that write files, and the last.
pub open spec fn writes_at(
    steps: Seq<StepView>,
    at: int,
    ir: IrView,
    debug_ir_output: Option<Seq<char>>,
    output: Option<Seq<char>>,
) -> bool {
    let lib = match debug_ir_output {
        Some(_) => at + 1,
        None => at,
    };
    &&& 0 <= at
    &&& steps.len() == lib + 2
    &&& debug_ir_output matches Some(path) ==> steps[at] == StepView::DebugIr(path)
    &&& steps[lib] == StepView::Lib(output)
    &&& ir.devices.len() == 0 ==> steps[lib + 1] is NoDevice
    &&& ir.devices.len() > 0 ==> steps[lib + 1] == StepView::DeviceX(output, ir.devices[0].0)
}

/// Whether the steps from `at` on are those of a pad that has a fault, and the last.
pub open spec fn gives_up_at(
    steps: Seq<StepView>,
    at: int,
    fs_name: Seq<char>,
    e: MuxFault,
) -> bool {
    &&& 0 <= at
    &&& steps.last() == StepView::Fault(e)
    &&& if e is MissingMuxRegisterAndDaisies {
        &&& steps.len() == at + 2
        &&& forall|instance: Seq<char>, mid: Seq<char>, pad: Seq<char>| #[trigger]
            pad_path(fs_name, instance, mid, pad) ==> is_warning(steps[at], pad)
        &&& steps[at] is Warn
    } else {
        steps.len() == at + 1
    }
}

/// A generation prints the header, then the code of each pad once, in the order of
/// the fieldsets, each behind its warning if it has one, up to the first pad that
/// has a fault; then it gives up at the fault, or writes the files.
pub proof fn lemma_generation(
    ir: IrView,
    debug_ir_output: Option<Seq<char>>,
    output: Option<Seq<char>>,
) -> (n: int)
    ensures
        ({
            let steps = steps_of(ir, debug_ir_output, output);
            let sets = ir.fieldsets;
            let w = step_count(ir);
            let end = 1 + total(sets.take(n), w);
            &&& 0 <= n <= sets.len()
            &&& forall|i: int| 0 <= i < n ==> mux_of(ir, (#[trigger] sets[i]).0) is Ok
            &&& steps.len() > 0
            &&& steps[0] == StepView::Print("use super::*;"@)
            &&& forall|i: int, mux: MuxView|
                0 <= i < n && mux_of(ir, (#[trigger] sets[i]).0) == Ok::<
                    Option<MuxView>,
                    MuxFault,
                >(Some(mux)) ==> #[trigger] prints_at(
                    steps,
                    1 + total(sets.take(i), w) as int,
                    mux,
                )
            &&& n < sets.len() ==> {
                &&& mux_of(ir, sets[n].0) is Err
                &&& gives_up_at(steps, end as int, sets[n].0, mux_of(ir, sets[n].0)->Err_0)
            }
            &&& n == sets.len() ==> writes_at(steps, end as int, ir, debug_ir_output, output)
        }),
{
    let sets = ir.fieldsets;
    let w = step_count(ir);
    let steps = steps_of(ir, debug_ir_output, output);
    let n = lemma_first_fault(ir, sets);
    let before = sets.take(n);
    assert forall|i: int| 0 <= i < before.len() implies mux_of(
        ir,
        (#[trigger] before[i]).0,
    ) is Ok by {
        assert(mux_of(ir, sets[i].0) is Ok);
    }
    lemma_pads(ir, before);
    let pads = pad_steps(ir, before).0;
    if n < sets.len() {
        lemma_gives_up(ir, debug_ir_output, output, n, mux_of(ir, sets[n].0)->Err_0);
    } else {
        assert(before =~= sets);
        lemma_writes(ir, debug_ir_output, output);
    }
    assert forall|i: int, mux: MuxView|
        0 <= i < n && mux_of(ir, (#[trigger] sets[i]).0) == Ok::<Option<MuxView>, MuxFault>(
            Some(mux),
        ) implies #[trigger] prints_at(steps, 1 + total(sets.take(i), w) as int, mux) by {
        assert(before[i] == sets[i]);
        assert(before.take(i) =~= sets.take(i));
        lemma_prints_later(steps, pads, total(before.take(i), w) as int, mux);
    }
    n
}

/// What is printed among the pads is printed behind the header.
proof fn lemma_prints_later(steps: Seq<StepView>, pads: Seq<StepView>, at: int, mux: MuxView)
    requires
        prints_at(pads, at, mux),
        steps.len() > pads.len(),
        forall|k: int| 0 <= k < pads.len() ==> steps[1 + k] == #[trigger] pads[k],
    ensures
        prints_at(steps, 1 + at, mux),
{
    assert(steps[1 + at] == pads[at]);
    if mux.arms.len() == 0 {
        assert(steps[1 + (at + 1)] == pads[at + 1]);
    }
}

/// Behind the pads before the first fault, a generation gives up.
proof fn lemma_gives_up(
    ir: IrView,
    debug_ir_output: Option<Seq<char>>,
    output: Option<Seq<char>>,
    n: int,
    e: MuxFault,
)
    requires
        0 <= n < ir.fieldsets.len(),
        mux_of(ir, ir.fieldsets[n].0) == Err::<Option<MuxView>, MuxFault>(e),
        pad_steps(ir, ir.fieldsets.take(n)).1 is None,
    ensures
        ({
            let steps = steps_of(ir, debug_ir_output, output);
            let pads = pad_steps(ir, ir.fieldsets.take(n)).0;
            &&& steps.len() > pads.len()
            &&& steps[0] == StepView::Print("use super::*;"@)
            &&& forall|k: int| 0 <= k < pads.len() ==> steps[1 + k] == #[trigger] pads[k]
            &&& gives_up_at(steps, 1 + pads.len() as int, ir.fieldsets[n].0, e)
        }),
{
    let fs_name = ir.fieldsets[n].0;
    let steps = steps_of(ir, debug_ir_output, output);
    let head = seq![StepView::Print("use super::*;"@)];
    let pads = pad_steps(ir, ir.fieldsets.take(n)).0;
    lemma_stopped(ir, ir.fieldsets, n, e);
    lemma_no_code(ir, fs_name);
    let (instance, mid, pad) = choose|instance: Seq<char>, mid: Seq<char>, pad: Seq<char>|
        #[trigger] pad_path(fs_name, instance, mid, pad);
    lemma_pad_read(fs_name, instance, mid, pad);
    assert(steps =~= head + pads + fault_steps(fs_name, e) + seq![StepView::Fault(e)]);
    if e is MissingMuxRegisterAndDaisies {
        assert forall|instance: Seq<char>, mid: Seq<char>, pad: Seq<char>| #[trigger]
            pad_path(fs_name, instance, mid, pad) implies is_warning(
            steps[1 + pads.len() as int],
            pad,
        ) by {
            lemma_pad_read(fs_name, instance, mid, pad);
        }
    }
}

/// Behind all pads, a generation writes the files.
proof fn lemma_writes(
    ir: IrView,
    debug_ir_output: Option<Seq<char>>,
    output: Option<Seq<char>>,
)
    requires
        pad_steps(ir, ir.fieldsets).1 is None,
    ensures
        ({
            let steps = steps_of(ir, debug_ir_output, output);
            let pads = pad_steps(ir, ir.fieldsets).0;
            &&& steps.len() > pads.len()
            &&& steps[0] == StepView::Print("use super::*;"@)
            &&& forall|k: int| 0 <= k < pads.len() ==> steps[1 + k] == #[trigger] pads[k]
            &&& writes_at(steps, 1 + pads.len() as int, ir, debug_ir_output, output)
        }),
{
    let steps = steps_of(ir, debug_ir_output, output);
    let head = seq![StepView::Print("use super::*;"@)];
    let pads = pad_steps(ir, ir.fieldsets).0;
    let tail = write_steps(ir, debug_ir_output, output);
    assert(steps =~= head + pads + tail);
    let end = 1 + pads.len() as int;
    assert(steps[end] == tail[0]);
    assert(steps[end + 1] == tail[1]);
    if debug_ir_output is Some {
        assert(steps[end + 2] == tail[2]);
    }
}

/// The first pad that has a fault, or the end.
proof fn lemma_first_fault(ir: IrView, sets: Entries<FieldSetView>) -> (n: int)
    ensures
        0 <= n <= sets.len(),
        forall|i: int| 0 <= i < n ==> mux_of(ir, (#[trigger] sets[i]).0) is Ok,
        n < sets.len() ==> mux_of(ir, sets[n].0) is Err,
    decreases sets.len(),
{
    if sets.len() == 0 {
        0
    } else {
        let init = sets.drop_last();
        let n = lemma_first_fault(ir, init);
        assert forall|i: int| 0 <= i < n implies mux_of(ir, (#[trigger] sets[i]).0) is Ok by {
            assert(mux_of(ir, init[i].0) is Ok);
        }
        if n < init.len() {
            n
        } else if mux_of(ir, sets.last().0) is Err {
            n
        } else {
            n + 1
        }
    }
}

/// The code that a step prints.
pub open spec fn code_in() -> spec_fn(StepView) -> Seq<MuxView> {
    |s: StepView|
        match s {
            StepView::Mux(mux) => seq![mux],
            _ => seq![],
        }
}

/// The code of the pad of a fieldset.
pub open spec fn code_of(ir: IrView) -> spec_fn((Seq<char>, FieldSetView)) -> Seq<MuxView> {
    |e: (Seq<char>, FieldSetView)|
        match mux_of(ir, e.0) {
            Ok(Some(mux)) => seq![mux],
            _ => seq![],
        }
}

/// The steps for pads print the code of each pad once, in order.
proof fn lemma_pad_codes(ir: IrView, sets: Entries<FieldSetView>)
    requires
        forall|i: int| 0 <= i < sets.len() ==> mux_of(ir, (#[trigger] sets[i]).0) is Ok,
    ensures
        gather(pad_steps(ir, sets).0, code_in()) == gather(sets, code_of(ir)),
        pad_steps(ir, sets).1 is None,
    decreases sets.len(),
{
    if sets.len() > 0 {
        let init = sets.drop_last();
        let n = sets.len() - 1;
        assert forall|i: int| 0 <= i < init.len() implies mux_of(
            ir,
            (#[trigger] init[i]).0,
        ) is Ok by {
            assert(mux_of(ir, sets[i].0) is Ok);
        }
        lemma_pad_codes(ir, init);
        assert(mux_of(ir, sets[n].0) is Ok);
        let done = pad_steps(ir, init).0;
        if let Ok(Some(mux)) = mux_of(ir, sets[n].0) {
            let own = mux_steps(mux);
            lemma_gather_append(done, own, code_in());
            let warning = own.drop_last();
            lemma_gather_empty(warning, code_in());
            assert(own.last() == StepView::Mux(mux));
            assert(gather(own, code_in()) =~= seq![mux]);
        } else {
            assert(gather(init, code_of(ir)) + Seq::<MuxView>::empty() =~= gather(
                init,
                code_of(ir),
            ));
        }
    }
}

/// The code that a generation prints is that of the fieldsets that have code, in
/// order, once each: of all of them, or of those before the first one whose code
/// cannot be made.
pub proof fn lemma_codes(
    ir: IrView,
    debug_ir_output: Option<Seq<char>>,
    output: Option<Seq<char>>,
) -> (n: int)
    ensures
        0 <= n <= ir.fieldsets.len(),
        forall|i: int| 0 <= i < n ==> mux_of(ir, (#[trigger] ir.fieldsets[i]).0) is Ok,
        n < ir.fieldsets.len() ==> mux_of(ir, ir.fieldsets[n].0) is Err,
        gather(steps_of(ir, debug_ir_output, output), code_in()) == gather(
            ir.fieldsets.take(n),
            code_of(ir),
        ),
{
    let sets = ir.fieldsets;
    let n = lemma_first_fault(ir, sets);
    let good = sets.take(n);
    assert forall|i: int| 0 <= i < good.len() implies mux_of(ir, (#[trigger] good[i]).0) is Ok by {
        assert(mux_of(ir, sets[i].0) is Ok);
    }
    lemma_pad_codes(ir, good);
    let head = seq![StepView::Print("use super::*;"@)];
    let pads = pad_steps(ir, good).0;
    let tail = if n < sets.len() {
        let e = mux_of(ir, sets[n].0)->Err_0;
        lemma_stopped(ir, sets, n, e);
        fault_steps(sets[n].0, e) + seq![StepView::Fault(e)]
    } else {
        assert(good =~= sets);
        write_steps(ir, debug_ir_output, output)
    };
    assert(steps_of(ir, debug_ir_output, output) =~= head + pads + tail);
    lemma_gather_append(head + pads, tail, code_in());
    lemma_gather_append(head, pads, code_in());
    lemma_gather_empty(head, code_in());
    lemma_gather_empty(tail, code_in());
    assert(gather(head + pads + tail, code_in()) =~= gather(pads, code_in()));
    n
}

} // verus!
