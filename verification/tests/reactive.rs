use signal_graph::expr::Expr;
use signal_graph::runtime::RtError;
use signal_graph::runtime::Runtime;

fn read_cell(c: usize) -> Expr {
    Expr::ReadCell(c)
}

fn times(e: Expr, k: i64) -> Expr {
    Expr::Mul(Box::new(e), Box::new(Expr::Lit(k)))
}

#[test]
fn write_then_read_round_trip() {
    let mut rt = Runtime::new();
    let c = rt.create_signal(0);
    assert_eq!(rt.write(c, 41), Ok(()));
    assert_eq!(rt.read(c), Ok(41));
    assert_eq!(rt.write(c, -7), Ok(()));
    assert_eq!(rt.read(c), Ok(-7));
}

#[test]
fn derived_doubles_after_write_and_flush() {
    let mut rt = Runtime::new();
    let count = rt.create_signal(0);
    let double = rt.create_derived(times(read_cell(count), 2)).unwrap();
    assert_eq!(rt.get(double), Ok(0));
    assert_eq!(rt.write(count, 5), Ok(()));
    assert_eq!(rt.flush(), Ok(()));
    assert_eq!(rt.get(double), Ok(10));
}

#[test]
fn derived_is_lazy_but_correct_without_flush() {
    let mut rt = Runtime::new();
    let count = rt.create_signal(3);
    let double = rt.create_derived(times(read_cell(count), 2)).unwrap();
    assert_eq!(rt.get(double), Ok(6));
    assert_eq!(rt.write(count, 10), Ok(()));
    // No flush yet: a derived read still sees the latest written value.
    assert_eq!(rt.get(double), Ok(20));
}

#[test]
fn derived_chain_propagates() {
    let mut rt = Runtime::new();
    let count = rt.create_signal(1);
    let double = rt.create_derived(times(read_cell(count), 2)).unwrap();
    let quad = rt
        .create_derived(times(Expr::ReadDerived(double), 2))
        .unwrap();
    assert_eq!(rt.get(quad), Ok(4));
    assert_eq!(rt.write(count, 6), Ok(()));
    assert_eq!(rt.get(quad), Ok(24));
}

#[test]
fn writes_coalesce_to_one_effect_run_with_latest_value() {
    let mut rt = Runtime::new();
    let count = rt.create_signal(0);
    let _eff = rt.create_effect(read_cell(count), None).unwrap();
    let after_create = rt.log_len();
    assert_eq!(after_create, 1);
    assert_eq!(rt.write(count, 1), Ok(()));
    assert_eq!(rt.write(count, 2), Ok(()));
    assert_eq!(rt.write(count, 3), Ok(()));
    assert_eq!(rt.flush(), Ok(()));
    // Three writes, one flush: exactly one more run, with the latest value.
    assert_eq!(rt.log_len(), 2);
    let rec = rt.log_at(1).unwrap();
    assert_eq!(rec.effect, 0);
    assert_eq!(rec.value, 3);
    // A flush with nothing pending runs nothing.
    assert_eq!(rt.flush(), Ok(()));
    assert_eq!(rt.log_len(), 2);
}

#[test]
fn batch_defers_and_coalesces() {
    let mut rt = Runtime::new();
    let count = rt.create_signal(0);
    let _eff = rt.create_effect(read_cell(count), None).unwrap();
    assert_eq!(rt.log_len(), 1);
    rt.begin_batch();
    assert_eq!(rt.write(count, 1), Ok(()));
    assert_eq!(rt.write(count, 2), Ok(()));
    assert_eq!(rt.end_batch(), Ok(()));
    // One run after the batch, observing the final value 2.
    assert_eq!(rt.log_len(), 2);
    let rec = rt.log_at(1).unwrap();
    assert_eq!(rec.value, 2);
    assert_eq!(rt.read(count), Ok(2));
}

#[test]
fn nested_batches_flush_once_at_the_outermost_end() {
    let mut rt = Runtime::new();
    let count = rt.create_signal(0);
    let _eff = rt.create_effect(read_cell(count), None).unwrap();
    rt.begin_batch();
    assert_eq!(rt.write(count, 1), Ok(()));
    rt.begin_batch();
    assert_eq!(rt.write(count, 2), Ok(()));
    assert_eq!(rt.end_batch(), Ok(()));
    // Inner end does not flush.
    assert_eq!(rt.log_len(), 1);
    assert_eq!(rt.end_batch(), Ok(()));
    assert_eq!(rt.log_len(), 2);
    assert_eq!(rt.log_at(1).unwrap().value, 2);
}

#[test]
fn rerun_with_unchanged_input_gives_identical_output() {
    let mut rt = Runtime::new();
    let count = rt.create_signal(7);
    let _eff = rt.create_effect(times(read_cell(count), 3), None).unwrap();
    // Write the same value again: no equality short-circuit, the effect
    // re-runs, and its presentation output is identical.
    assert_eq!(rt.write(count, 7), Ok(()));
    assert_eq!(rt.flush(), Ok(()));
    assert_eq!(rt.log_len(), 2);
    assert_eq!(rt.log_at(0).unwrap().value, rt.log_at(1).unwrap().value);
}

#[test]
fn dynamic_dependencies_drop_the_unread_branch() {
    let mut rt = Runtime::new();
    let a = rt.create_signal(10);
    let b = rt.create_signal(20);
    let c = rt.create_signal(1);
    let body = Expr::IfNonZero(
        Box::new(read_cell(c)),
        Box::new(read_cell(a)),
        Box::new(read_cell(b)),
    );
    let _eff = rt.create_effect(body, None).unwrap();
    assert_eq!(rt.log_len(), 1);
    assert_eq!(rt.log_at(0).unwrap().value, 10);
    // While C is nonzero the effect depends on A.
    assert_eq!(rt.write(a, 11), Ok(()));
    assert_eq!(rt.flush(), Ok(()));
    assert_eq!(rt.log_len(), 2);
    assert_eq!(rt.log_at(1).unwrap().value, 11);
    // Flip C: the effect re-runs and now reads B instead of A.
    assert_eq!(rt.write(c, 0), Ok(()));
    assert_eq!(rt.flush(), Ok(()));
    assert_eq!(rt.log_len(), 3);
    assert_eq!(rt.log_at(2).unwrap().value, 20);
    // A is no longer read: writing it must not re-run the effect.
    assert_eq!(rt.write(a, 999), Ok(()));
    assert_eq!(rt.flush(), Ok(()));
    assert_eq!(rt.log_len(), 3);
    // B is read: writing it re-runs the effect.
    assert_eq!(rt.write(b, 21), Ok(()));
    assert_eq!(rt.flush(), Ok(()));
    assert_eq!(rt.log_len(), 4);
    assert_eq!(rt.log_at(3).unwrap().value, 21);
}

#[test]
fn disposed_effect_never_runs_again() {
    let mut rt = Runtime::new();
    let count = rt.create_signal(0);
    let eff = rt.create_effect(read_cell(count), None).unwrap();
    assert_eq!(rt.log_len(), 1);
    assert_eq!(rt.dispose_effect(eff), Ok(()));
    assert_eq!(rt.write(count, 99), Ok(()));
    assert_eq!(rt.flush(), Ok(()));
    assert_eq!(rt.log_len(), 1);
    // Disposing twice is reported.
    assert_eq!(rt.dispose_effect(eff), Err(RtError::UseAfterDispose));
}

#[test]
fn unconditional_self_cycle_is_detected() {
    let mut rt = Runtime::new();
    let count = rt.create_signal(0);
    // The effect reads `count` and writes `count + 1` back to it: a true
    // update cycle.
    let body = Expr::Add(Box::new(read_cell(count)), Box::new(Expr::Lit(1)));
    let _eff = rt.create_effect(body, Some(count)).unwrap();
    // The creation run already wrote the cell and re-scheduled the effect.
    assert_eq!(rt.flush(), Err(RtError::CyclicUpdateError));
}

#[test]
fn use_after_dispose_on_cells_and_deriveds() {
    let mut rt = Runtime::new();
    let c = rt.create_signal(5);
    let d = rt.create_derived(times(read_cell(c), 2)).unwrap();
    assert_eq!(rt.dispose_cell(c), Ok(()));
    assert_eq!(rt.read(c), Err(RtError::UseAfterDispose));
    assert_eq!(rt.write(c, 1), Err(RtError::UseAfterDispose));
    assert_eq!(rt.dispose_cell(c), Err(RtError::UseAfterDispose));
    // The derived computation still sees the cell's last value.
    assert_eq!(rt.get(d), Ok(10));
    assert_eq!(rt.dispose_derived(d), Ok(()));
    assert_eq!(rt.get(d), Err(RtError::UseAfterDispose));
    // Unknown identifiers are reported the same way.
    assert_eq!(rt.read(17), Err(RtError::UseAfterDispose));
}

#[test]
fn self_referential_computations_are_rejected() {
    let mut rt = Runtime::new();
    let c = rt.create_signal(0);
    // The first derived computation would have rank 0 and may not read
    // itself (or anything of rank >= 0).
    assert_eq!(
        rt.create_derived(Expr::ReadDerived(0)),
        Err(RtError::ReentrantTrackingViolation)
    );
    // An unknown cell in the body is rejected too.
    assert_eq!(
        rt.create_derived(read_cell(3)),
        Err(RtError::ReentrantTrackingViolation)
    );
    // An effect with an unknown target cell is rejected.
    assert_eq!(
        rt.create_effect(read_cell(c), Some(9)),
        Err(RtError::ReentrantTrackingViolation)
    );
}

#[test]
fn arithmetic_wraps_like_i64() {
    let mut rt = Runtime::new();
    let c = rt.create_signal(i64::MAX);
    let d = rt.create_derived(times(read_cell(c), 2)).unwrap();
    assert_eq!(rt.get(d), Ok(i64::MAX.wrapping_mul(2)));
    assert_eq!(rt.get(d), Ok(-2));
    let s = rt
        .create_derived(Expr::Add(
            Box::new(read_cell(c)),
            Box::new(Expr::Lit(1)),
        ))
        .unwrap();
    assert_eq!(rt.get(s), Ok(i64::MIN));
}

#[test]
fn effect_through_derived_reruns_on_upstream_write() {
    let mut rt = Runtime::new();
    let count = rt.create_signal(2);
    let double = rt.create_derived(times(read_cell(count), 2)).unwrap();
    let _eff = rt
        .create_effect(Expr::ReadDerived(double), None)
        .unwrap();
    assert_eq!(rt.log_len(), 1);
    assert_eq!(rt.log_at(0).unwrap().value, 4);
    assert_eq!(rt.write(count, 5), Ok(()));
    assert_eq!(rt.flush(), Ok(()));
    assert_eq!(rt.log_len(), 2);
    assert_eq!(rt.log_at(1).unwrap().value, 10);
}
