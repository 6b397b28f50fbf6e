//! The laws of the reactive kernel, stated and proved over the
//! contracts of `runtime`: coalescing, write/read round trips, effect
//! idempotence, dynamic dependency correctness, disposal, and cycle
//! detection.

use vstd::prelude::*;

use crate::expr::hit_seq;
use crate::expr::src_calm;
use crate::expr::src_hits;
use crate::expr::Src;
use crate::runtime::count_runs;
use crate::runtime::flush_delta;
use crate::runtime::flush_spec;
use crate::runtime::no_writer_pending;
use crate::runtime::spec_cycle;
use crate::runtime::write_cell_post;
use crate::runtime::RtError;
use crate::runtime::RunRecord;
use crate::runtime::Runtime;

verus! {

/// A write to a cell schedules every effect whose recorded dependency
/// set names that cell.  Together with `law_flush_coalesces` and
/// `law_flush_latest_value` this gives the coalescing guarantee: however
/// many writes precede a flush, each subscribed effect runs, exactly
/// once, with the latest value.
pub proof fn law_write_schedules_subscriber(
    pre: Runtime,
    post: Runtime,
    c: usize,
    v: i64,
    e: int,
)
    requires
        pre.wf(),
        write_cell_post(pre, post, c, v),
        0 <= e < pre.n_effects(),
        pre.edeps()[e].contains(Src::Cell(c)),
    ensures
        post.pend()[e],
{
    let k = choose|k: int| 0 <= k < pre.edeps()[e].len() && pre.edeps()[e][k] == Src::Cell(c);
    assert(src_hits(pre.edeps()[e][k], post.ddirty(), c));
    assert(hit_seq(pre.edeps()[e], post.ddirty(), c));
}

/// A write never unschedules an effect: scheduling is monotone until
/// the next flush, so intermediate writes coalesce instead of cancelling.
pub proof fn law_write_keeps_scheduled(pre: Runtime, post: Runtime, c: usize, v: i64, e: int)
    requires
        pre.wf(),
        write_cell_post(pre, post, c, v),
        0 <= e < pre.n_effects(),
        pre.pend()[e],
    ensures
        post.pend()[e],
{
}

/// Round trip: immediately after `write(c, v)` the cell holds `v`,
/// before any flush.
pub proof fn law_write_round_trip(pre: Runtime, post: Runtime, c: usize, v: i64)
    requires
        pre.wf(),
        c < pre.n_cells(),
        write_cell_post(pre, post, c, v),
    ensures
        post.cvals()[c as int] == v,
{
}

/// Within one settling flush, each scheduled live effect appears in the
/// appended run records exactly once, and unscheduled or disposed
/// effects not at all.
pub proof fn law_flush_coalesces(rt: Runtime, e: usize, i: int)
    requires
        0 <= i <= rt.n_effects(),
        rt.n_effects() <= usize::MAX as int,
    ensures
        count_runs(flush_delta(rt, i), e) == if (e as int) < i && rt.pend()[e as int]
            && rt.ealive()[e as int] {
            1int
        } else {
            0int
        },
    decreases i,
{
    if i > 0 {
        law_flush_coalesces(rt, e, i - 1);
        let rest = flush_delta(rt, i - 1);
        if rt.pend()[i - 1] && rt.ealive()[i - 1] {
            let rec = RunRecord { effect: (i - 1) as usize, value: rt.effect_val(i - 1) };
            assert(flush_delta(rt, i) == rest.push(rec));
            assert(rest.push(rec).len() == rest.len() + 1);
            assert(rest.push(rec).drop_last() =~= rest);
            assert(rest.push(rec).last() == rec);
            assert(count_runs(rest.push(rec), e) == count_runs(rest.push(rec).drop_last(), e)
                + if rest.push(rec).last().effect == e {
                1int
            } else {
                0int
            });
            assert(count_runs(rest.push(rec).drop_last(), e) == count_runs(rest, e));
        } else {
            assert(flush_delta(rt, i) == rest);
        }
    } else {
        assert(flush_delta(rt, i) == Seq::<RunRecord>::empty());
        assert(count_runs(flush_delta(rt, i), e) == 0);
    }
}

/// The single run of a scheduled live effect in a settling flush
/// observes the latest cell values: its record carries the value of the
/// effect's body under the cell values at flush time.
pub proof fn law_flush_latest_value(rt: Runtime, e: usize, i: int)
    requires
        0 <= (e as int) < i <= rt.n_effects(),
        rt.n_effects() <= usize::MAX as int,
        rt.pend()[e as int],
        rt.ealive()[e as int],
    ensures
        flush_delta(rt, i).contains(
            RunRecord { effect: e, value: rt.effect_val(e as int) },
        ),
    decreases i,
{
    let rec = RunRecord { effect: e, value: rt.effect_val(e as int) };
    let rest = flush_delta(rt, i - 1);
    if (e as int) == i - 1 {
        assert(rest.push(rec)[rest.len() as int] == rec);
    } else {
        law_flush_latest_value(rt, e, i - 1);
        let k = choose|k: int| 0 <= k < rest.len() && rest[k] == rec;
        if rt.pend()[i - 1] && rt.ealive()[i - 1] {
            let rec2 = RunRecord { effect: (i - 1) as usize, value: rt.effect_val(i - 1) };
            assert(rest.push(rec2)[k] == rec);
        }
    }
}

/// Idempotence: an effect's output and its read set are functions of
/// the cell values and the expressions alone, so running it twice with
/// no intervening write to any of its dependencies produces identical
/// output both times and re-records the identical dependency set (a
/// re-run with unchanged sources is observably a no-op).
pub proof fn law_effect_idempotent(rt1: Runtime, rt2: Runtime, e: int)
    requires
        rt1.cvals() == rt2.cvals(),
        rt1.dexprs() == rt2.dexprs(),
        rt1.eexprs() == rt2.eexprs(),
    ensures
        rt1.effect_val(e) == rt2.effect_val(e),
        rt1.effect_reads(e) == rt2.effect_reads(e),
{
}

/// A cell read at the last settling flush re-schedules: if an effect
/// that ran in that flush read cell `c`, a later write to `c` schedules
/// it again.  The flush re-recorded the effect's dependency set as what
/// its body read, and the write strikes that set.
pub proof fn law_reread_cell_reschedules(
    fpre: Runtime,
    fpost: Runtime,
    r: Result<(), RtError>,
    wpost: Runtime,
    c: usize,
    v: i64,
    e: int,
)
    requires
        flush_spec(fpre, fpost, r),
        no_writer_pending(fpre),
        0 <= e < fpre.n_effects(),
        fpre.pend()[e],
        fpre.ealive()[e],
        fpost.wf(),
        write_cell_post(fpost, wpost, c, v),
        fpre.effect_reads(e).contains(Src::Cell(c)),
    ensures
        wpost.pend()[e],
{
    assert(fpost.edeps()[e].contains(Src::Cell(c)));
    law_write_schedules_subscriber(fpost, wpost, c, v, e);
}

/// A cell not read at the last settling flush never re-schedules: if an
/// effect that ran in that flush read only cells, and did not read `c`,
/// a later write to `c` leaves its scheduling unchanged.  This is the
/// dependency-flip guarantee: once a branch stops reading a cell, that
/// cell stops re-running the effect.
pub proof fn law_unread_cell_does_not_reschedule(
    fpre: Runtime,
    fpost: Runtime,
    r: Result<(), RtError>,
    wpost: Runtime,
    c: usize,
    v: i64,
    e: int,
)
    requires
        flush_spec(fpre, fpost, r),
        no_writer_pending(fpre),
        0 <= e < fpre.n_effects(),
        fpre.pend()[e],
        fpre.ealive()[e],
        fpost.wf(),
        write_cell_post(fpost, wpost, c, v),
        !fpre.effect_reads(e).contains(Src::Cell(c)),
        forall|j: usize| !(#[trigger] fpre.effect_reads(e).contains(Src::Derived(j))),
    ensures
        wpost.pend()[e] == fpost.pend()[e],
{
    assert forall|s: Src| #[trigger]
        fpost.edeps()[e].contains(s) implies src_calm(s, wpost.ddirty(), c) by {
        assert(fpre.effect_reads(e).contains(s));
        match s {
            Src::Cell(_) => {},
            Src::Derived(j) => {
                assert(fpre.effect_reads(e).contains(Src::Derived(j)));
            },
        }
    }
    law_dynamic_dependency(fpost, wpost, c, v, e);
}

/// Dynamic dependency correctness: a write to a cell that an effect's
/// current (last recorded) dependency set leaves calm — it names neither
/// the written cell nor any invalidated derived computation — does not
/// change whether that effect is scheduled.  After a dependency flip the
/// recorded set no longer names the unread cell, so writes to it no
/// longer re-run the effect.
pub proof fn law_dynamic_dependency(pre: Runtime, post: Runtime, c: usize, v: i64, e: int)
    requires
        pre.wf(),
        write_cell_post(pre, post, c, v),
        0 <= e < pre.n_effects(),
        forall|s: Src| #[trigger]
            pre.edeps()[e].contains(s) ==> src_calm(s, post.ddirty(), c),
    ensures
        post.pend()[e] == pre.pend()[e],
{
    if hit_seq(pre.edeps()[e], post.ddirty(), c) {
        let k = choose|k: int|
            0 <= k < pre.edeps()[e].len() && src_hits(#[trigger] pre.edeps()[e][k], post.ddirty(), c);
        assert(pre.edeps()[e].contains(pre.edeps()[e][k]));
    }
}

/// No missed updates: every effect that is scheduled and alive when a
/// flush starts runs during that flush — a record of it is appended to
/// the log — whatever the flush's outcome.
pub proof fn law_flush_runs_every_scheduled(
    pre: Runtime,
    post: Runtime,
    r: Result<(), RtError>,
    e: int,
)
    requires
        flush_spec(pre, post, r),
        0 <= e < pre.n_effects(),
        pre.pend()[e],
        pre.ealive()[e],
    ensures
        exists|i: int|
            pre.log().len() <= i < post.log().len() && (#[trigger] post.log()[i]).effect == e,
{
}

/// A disposed effect never runs again: no record a flush appends names
/// it.
pub proof fn law_disposed_never_runs(pre: Runtime, post: Runtime, r: Result<(), RtError>, e: int)
    requires
        flush_spec(pre, post, r),
        0 <= e < pre.n_effects(),
        !pre.ealive()[e],
    ensures
        forall|i: int|
            pre.log().len() <= i < post.log().len() ==> (#[trigger] post.log()[i]).effect != e,
{
    assert forall|i: int|
        pre.log().len() <= i < post.log().len() implies (#[trigger] post.log()[i]).effect
        != e by {
        assert(pre.ealive()[post.log()[i].effect as int]);
    }
}

/// An effect that unconditionally reads and writes the same live signal
/// cell makes every flush that starts with it scheduled report
/// `CyclicUpdateError` instead of looping forever.
pub proof fn law_unconditional_cycle_errors(
    pre: Runtime,
    post: Runtime,
    r: Result<(), RtError>,
    e: int,
)
    requires
        flush_spec(pre, post, r),
        spec_cycle(pre, e),
    ensures
        r == Err::<(), RtError>(RtError::CyclicUpdateError),
{
    assert(exists|x: int| spec_cycle(pre, x));
}

} // verus!
