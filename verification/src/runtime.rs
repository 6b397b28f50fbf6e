//! The reactive runtime: signal cells, derived computations, effects, and
//! the scheduler.
//!
//! One `Runtime` is one reactive scope.  Writes to signal cells never run
//! effects synchronously: they mark the derived computations that
//! (transitively) depend on the written cell dirty, schedule the effects
//! whose last recorded dependency set is struck, and return.  A later
//! `flush` runs every scheduled live effect exactly once per pass,
//! re-recording its dependency set, until nothing is scheduled or the pass
//! bound is exceeded (a cyclic update).  Derived computations are lazy:
//! invalidation propagates eagerly at write time, recomputation happens at
//! the next read.

use vstd::prelude::*;

use crate::expr::check_expr;
use crate::expr::clean_frame_ok;
use crate::expr::deps_bounded;
use crate::expr::eval_e;
use crate::expr::hit_seq;
use crate::expr::lemma_eval_frame;
use crate::expr::lemma_eval_grow;
use crate::expr::lemma_hit_mono;
use crate::expr::lemma_reads_bounded;
use crate::expr::lemma_surely_reads;
use crate::expr::reads_e;
use crate::expr::src_calm;
use crate::expr::src_hits;
use crate::expr::src_in_range;
use crate::expr::surely_reads;
use crate::expr::wf_expr;
use crate::expr::Expr;
use crate::expr::Src;

verus! {

/// The errors the runtime reports.
#[derive(Clone, Copy, PartialEq, Eq, Structural, Debug)]
pub enum RtError {
    /// A cell, derived computation or effect was used after it was
    /// disposed, or never existed.
    UseAfterDispose,
    /// A flush kept re-scheduling effects past the pass bound: the
    /// dependency graph contains a true update cycle.
    CyclicUpdateError,
    /// A computation was created whose body names itself or an entity
    /// that does not exist yet: a self-referential computation.
    ReentrantTrackingViolation,
}

/// One entry of the run log: effect `effect` ran and produced `value`
/// (its presentation output).
#[derive(Clone, Copy, PartialEq, Eq, Structural, Debug)]
pub struct RunRecord {
    pub effect: usize,
    pub value: i64,
}

/// Upper bound on scheduler passes within one flush before a cyclic
/// update is reported.
pub const MAX_FLUSH_PASSES: usize = 64;

/// One reactive scope: its cells, derived computations, effects, the
/// scheduler's pending set, the batch depth, and the log of effect runs.
///
/// All state is held in parallel vectors indexed by the identifiers that
/// the constructors hand out; identifiers are never reused.
pub struct Runtime {
    c_value: Vec<i64>,
    c_alive: Vec<bool>,
    d_expr: Vec<Expr>,
    d_cached: Vec<i64>,
    d_dirty: Vec<bool>,
    d_deps: Vec<Vec<Src>>,
    d_alive: Vec<bool>,
    e_expr: Vec<Expr>,
    e_target: Vec<Option<usize>>,
    e_deps: Vec<Vec<Src>>,
    e_alive: Vec<bool>,
    pending: Vec<bool>,
    batch_depth: usize,
    run_log: Vec<RunRecord>,
}

impl Runtime {
    /// The current values of all cells, disposed ones included.
    pub closed spec fn cvals(self) -> Seq<i64> {
        self.c_value@
    }

    /// Which cells are alive (not disposed).
    pub closed spec fn calive(self) -> Seq<bool> {
        self.c_alive@
    }

    /// The expressions of all derived computations, by rank.
    pub closed spec fn dexprs(self) -> Seq<Expr> {
        self.d_expr@
    }

    /// The memoized values of the derived computations.
    pub closed spec fn dcached(self) -> Seq<i64> {
        self.d_cached@
    }

    /// The dirty flags of the derived computations.
    pub closed spec fn ddirty(self) -> Seq<bool> {
        self.d_dirty@
    }

    /// The dependency lists the derived computations recorded at their
    /// last recomputation.
    pub closed spec fn ddeps(self) -> Seq<Seq<Src>> {
        self.d_deps@.map_values(|v: Vec<Src>| v@)
    }

    /// Which derived computations are alive.
    pub closed spec fn dalive(self) -> Seq<bool> {
        self.d_alive@
    }

    /// The expressions of all effects.
    pub closed spec fn eexprs(self) -> Seq<Expr> {
        self.e_expr@
    }

    /// The write targets of all effects (an effect may write one cell
    /// after evaluating its body).
    pub closed spec fn etargets(self) -> Seq<Option<usize>> {
        self.e_target@
    }

    /// The dependency lists the effects recorded at their last run.
    pub closed spec fn edeps(self) -> Seq<Seq<Src>> {
        self.e_deps@.map_values(|v: Vec<Src>| v@)
    }

    /// Which effects are alive.
    pub closed spec fn ealive(self) -> Seq<bool> {
        self.e_alive@
    }

    /// The scheduler's pending set: which effects are scheduled to run at
    /// the next flush.
    pub closed spec fn pend(self) -> Seq<bool> {
        self.pending@
    }

    /// The current batch nesting depth.
    pub closed spec fn depth(self) -> nat {
        self.batch_depth as nat
    }

    /// The log of effect runs, oldest first.
    pub closed spec fn log(self) -> Seq<RunRecord> {
        self.run_log@
    }

    /// Number of cells ever created in this scope.
    pub open spec fn n_cells(self) -> int {
        self.cvals().len() as int
    }

    /// Number of derived computations ever created in this scope.
    pub open spec fn n_deriveds(self) -> int {
        self.dexprs().len() as int
    }

    /// Number of effects ever created in this scope.
    pub open spec fn n_effects(self) -> int {
        self.eexprs().len() as int
    }

    /// The mathematical value of derived computation `d`: its expression
    /// evaluated over the current cell values, resolving nested derived
    /// reads recursively.  This is what `get` returns, memoized or not.
    pub open spec fn dval(self, d: int) -> i64 {
        eval_e(self.cvals(), self.dexprs(), d as nat, self.dexprs()[d])
    }

    /// The value effect `e` produces if run in the current state.
    pub open spec fn effect_val(self, e: int) -> i64 {
        eval_e(self.cvals(), self.dexprs(), self.dexprs().len(), self.eexprs()[e])
    }

    /// The sources effect `e` reads if run in the current state.
    pub open spec fn effect_reads(self, e: int) -> Set<Src> {
        reads_e(self.cvals(), self.dexprs(), self.dexprs().len(), self.eexprs()[e])
    }

    /// Derived computation `d` is truly up to date: its memoized value
    /// equals its mathematical value, and its recorded dependency list
    /// is exactly what evaluating its expression reads now.
    pub open spec fn derived_clean_at(self, d: int) -> bool {
        &&& self.dcached()[d] == self.dval(d)
        &&& forall|s: Src|
            #[trigger] self.ddeps()[d].contains(s) <==> reads_e(
                self.cvals(),
                self.dexprs(),
                d as nat,
                self.dexprs()[d],
            ).contains(s)
    }

    /// Well-formedness of a scope.  All parallel vectors agree in length;
    /// every expression is well-formed (cells in range, derived reads
    /// below the reader's rank, so the derived layer is a DAG); targets
    /// are in range; and every clean derived computation is truly up to
    /// date: its memoized value equals its mathematical value and its
    /// recorded dependency list is exactly what evaluation reads now.
    pub open spec fn wf(self) -> bool {
        &&& self.calive().len() == self.n_cells()
        &&& self.dcached().len() == self.n_deriveds()
        &&& self.ddirty().len() == self.n_deriveds()
        &&& self.ddeps().len() == self.n_deriveds()
        &&& self.dalive().len() == self.n_deriveds()
        &&& self.etargets().len() == self.n_effects()
        &&& self.edeps().len() == self.n_effects()
        &&& self.ealive().len() == self.n_effects()
        &&& self.pend().len() == self.n_effects()
        &&& forall|d: int|
            0 <= d < self.n_deriveds() ==> wf_expr(
                #[trigger] self.dexprs()[d],
                self.n_cells() as nat,
                d as nat,
            )
        &&& forall|e: int|
            0 <= e < self.n_effects() ==> wf_expr(
                #[trigger] self.eexprs()[e],
                self.n_cells() as nat,
                self.n_deriveds() as nat,
            )
        &&& forall|e: int|
            0 <= e < self.n_effects() ==> (match #[trigger] self.etargets()[e] {
                Option::Some(t) => t < self.n_cells(),
                Option::None => true,
            })
        &&& forall|d: int|
            0 <= d < self.n_deriveds() && !self.ddirty()[d] ==> #[trigger] self.derived_clean_at(d)
    }
}

/// The cells are unchanged between two states.
pub open spec fn cells_unchanged(pre: Runtime, post: Runtime) -> bool {
    &&& post.cvals() == pre.cvals()
    &&& post.calive() == pre.calive()
}

/// The derived computations are entirely unchanged between two states.
pub open spec fn deriveds_unchanged(pre: Runtime, post: Runtime) -> bool {
    &&& post.dexprs() == pre.dexprs()
    &&& post.dcached() == pre.dcached()
    &&& post.ddirty() == pre.ddirty()
    &&& post.ddeps() == pre.ddeps()
    &&& post.dalive() == pre.dalive()
}

/// The effects are entirely unchanged between two states.
pub open spec fn effects_unchanged(pre: Runtime, post: Runtime) -> bool {
    &&& post.eexprs() == pre.eexprs()
    &&& post.etargets() == pre.etargets()
    &&& post.edeps() == pre.edeps()
    &&& post.ealive() == pre.ealive()
}

/// The identity and liveness of every entity is unchanged between two
/// states: nothing was created or disposed and no expression or target
/// changed.  Values, dirty flags, dependency lists, the pending set and
/// the log may differ.
pub open spec fn shape_unchanged(pre: Runtime, post: Runtime) -> bool {
    &&& post.n_cells() == pre.n_cells()
    &&& post.calive() == pre.calive()
    &&& post.dexprs() == pre.dexprs()
    &&& post.dalive() == pre.dalive()
    &&& post.eexprs() == pre.eexprs()
    &&& post.etargets() == pre.etargets()
    &&& post.ealive() == pre.ealive()
}

/// Effect `e` is shaped as an unconditional self-cycle: it is alive, it
/// writes a live cell, and its body reads that cell under every
/// valuation.  Such an effect re-schedules itself on every run.
pub open spec fn cyc_shape(rt: Runtime, e: int) -> bool {
    &&& 0 <= e < rt.n_effects()
    &&& rt.ealive()[e]
    &&& match rt.etargets()[e] {
        Option::Some(t) => t < rt.n_cells() && rt.calive()[t as int] && surely_reads(
            rt.eexprs()[e],
            t,
        ),
        Option::None => false,
    }
}

/// A scheduled unconditional self-cycle: a flush that starts here cannot
/// settle and must report `CyclicUpdateError`.
pub open spec fn spec_cycle(rt: Runtime, e: int) -> bool {
    &&& cyc_shape(rt, e)
    &&& rt.pend()[e]
}

/// No scheduled live effect writes a cell: a flush from this state is a
/// pure fan-out of reads and settles in one pass.
pub open spec fn no_writer_pending(rt: Runtime) -> bool {
    forall|k: int|
        0 <= k < rt.n_effects() && rt.pend()[k] && rt.ealive()[k] ==> #[trigger] rt.etargets()[k]
            is None
}

/// The run records a settling flush appends, for the scheduled live
/// effects among the first `i`, in identifier order: each appears exactly
/// once, with the value its body has under the current cell values.
pub open spec fn flush_delta(rt: Runtime, i: int) -> Seq<RunRecord>
    decreases i,
{
    if i <= 0 {
        Seq::empty()
    } else {
        let rest = flush_delta(rt, i - 1);
        if rt.pend()[i - 1] && rt.ealive()[i - 1] {
            rest.push(RunRecord { effect: (i - 1) as usize, value: rt.effect_val(i - 1) })
        } else {
            rest
        }
    }
}

/// How many entries of a run log belong to effect `e`.
pub open spec fn count_runs(s: Seq<RunRecord>, e: usize) -> int
    decreases s.len(),
{
    if s.len() == 0 {
        0
    } else {
        count_runs(s.drop_last(), e) + if s.last().effect == e {
            1int
        } else {
            0int
        }
    }
}

/// What every flush guarantees, whatever its outcome `r`: the scope keeps
/// its shape, the log only grows and only with runs of live effects, a
/// settled flush leaves nothing scheduled, the only error is
/// `CyclicUpdateError`, a flush with no scheduled writer settles in one
/// pass appending exactly `flush_delta` and re-records each run effect's
/// dependency set as exactly what its body reads under the current cell
/// values (leaving the other recorded sets unchanged), and a scheduled
/// unconditional self-cycle is always reported as an error.
pub open spec fn flush_spec(pre: Runtime, post: Runtime, r: Result<(), RtError>) -> bool {
    &&& post.wf()
    &&& shape_unchanged(pre, post)
    &&& pre.log().is_prefix_of(post.log())
    &&& forall|i: int|
        pre.log().len() <= i < post.log().len() ==> 0 <= (#[trigger] post.log()[i]).effect
            < pre.n_effects() && pre.ealive()[post.log()[i].effect as int]
    &&& r is Ok ==> (forall|k: int| 0 <= k < post.pend().len() ==> !(#[trigger] post.pend()[k]))
    &&& r is Err ==> r == Err::<(), RtError>(RtError::CyclicUpdateError)
    &&& forall|j: int|
        0 <= j < pre.n_effects() && #[trigger] pre.pend()[j] && pre.ealive()[j] ==> (exists|i: int|
            pre.log().len() <= i < post.log().len() && (#[trigger] post.log()[i]).effect == j)
    &&& no_writer_pending(pre) ==> {
        &&& r is Ok
        &&& post.cvals() == pre.cvals()
        &&& post.dcached() == pre.dcached()
        &&& post.ddirty() == pre.ddirty()
        &&& post.ddeps() == pre.ddeps()
        &&& post.log() == pre.log() + flush_delta(pre, pre.n_effects())
        &&& forall|e: int|
            0 <= e < pre.n_effects() && #[trigger] pre.pend()[e] && pre.ealive()[e] ==> (forall|
                s: Src,
            |
                #[trigger] post.edeps()[e].contains(s) <==> pre.effect_reads(e).contains(s))
        &&& forall|e: int|
            0 <= e < pre.n_effects() && !(pre.pend()[e] && pre.ealive()[e])
                ==> #[trigger] post.edeps()[e] == pre.edeps()[e]
    }
    &&& (exists|e: int| spec_cycle(pre, e)) ==> r is Err
}

/// How one write to cell `c` propagates to the dirty flags and the
/// pending set.
///
/// Dirty flags only grow; a flag is only set when the computation's
/// recorded dependency list is struck (it names `c` or a dirty derived
/// computation); and a computation left clean whose recorded list is
/// bounded by its rank is certainly not struck — eager invalidation is
/// complete.  An effect is scheduled exactly when it was already
/// scheduled or its recorded dependency list is struck.
pub open spec fn mark_pend_post(
    pre_ddeps: Seq<Seq<Src>>,
    pre_dirty: Seq<bool>,
    post_dirty: Seq<bool>,
    cur_edeps: Seq<Seq<Src>>,
    pre_pend: Seq<bool>,
    post_pend: Seq<bool>,
    c: usize,
) -> bool {
    &&& post_dirty.len() == pre_dirty.len()
    &&& post_pend.len() == pre_pend.len()
    &&& forall|d: int| 0 <= d < pre_dirty.len() && pre_dirty[d] ==> #[trigger] post_dirty[d]
    &&& forall|d: int|
        0 <= d < pre_dirty.len() && #[trigger] post_dirty[d] ==> pre_dirty[d] || hit_seq(
            pre_ddeps[d],
            post_dirty,
            c,
        )
    &&& forall|d: int|
        0 <= d < pre_dirty.len() && !post_dirty[d] && deps_bounded(pre_ddeps[d], d)
            ==> !hit_seq(#[trigger] pre_ddeps[d], post_dirty, c)
    &&& forall|k: int|
        0 <= k < pre_pend.len() ==> #[trigger] post_pend[k] == (pre_pend[k] || hit_seq(
            cur_edeps[k],
            post_dirty,
            c,
        ))
}

/// The full observable change of one write of value `v` to live cell
/// `c`: the cell holds `v`, everything else keeps its identity, and the
/// dirty flags and pending set change as `mark_pend_post` says.
pub open spec fn write_cell_post(pre: Runtime, post: Runtime, c: usize, v: i64) -> bool {
    &&& post.cvals() == pre.cvals().update(c as int, v)
    &&& post.calive() == pre.calive()
    &&& post.dexprs() == pre.dexprs()
    &&& post.dcached() == pre.dcached()
    &&& post.ddeps() == pre.ddeps()
    &&& post.dalive() == pre.dalive()
    &&& effects_unchanged(pre, post)
    &&& post.log() == pre.log()
    &&& post.depth() == pre.depth()
    &&& mark_pend_post(
        pre.ddeps(),
        pre.ddirty(),
        post.ddirty(),
        pre.edeps(),
        pre.pend(),
        post.pend(),
        c,
    )
}

impl Runtime {
    /// Creates an empty reactive scope.
    pub fn new() -> (rt: Runtime)
        ensures
            rt.wf(),
            rt.n_cells() == 0,
            rt.n_deriveds() == 0,
            rt.n_effects() == 0,
            rt.log().len() == 0,
            rt.depth() == 0,
    {
        Runtime {
            c_value: Vec::new(),
            c_alive: Vec::new(),
            d_expr: Vec::new(),
            d_cached: Vec::new(),
            d_dirty: Vec::new(),
            d_deps: Vec::new(),
            d_alive: Vec::new(),
            e_expr: Vec::new(),
            e_target: Vec::new(),
            e_deps: Vec::new(),
            e_alive: Vec::new(),
            pending: Vec::new(),
            batch_depth: 0,
            run_log: Vec::new(),
        }
    }

    /// Creates a signal cell holding `initial` and returns its
    /// identifier.
    pub fn create_signal(&mut self, initial: i64) -> (id: usize)
        requires
            old(self).wf(),
        ensures
            final(self).wf(),
            id as int == old(self).n_cells(),
            final(self).cvals() == old(self).cvals().push(initial),
            final(self).calive() == old(self).calive().push(true),
            deriveds_unchanged(*old(self), *final(self)),
            effects_unchanged(*old(self), *final(self)),
            final(self).pend() == old(self).pend(),
            final(self).log() == old(self).log(),
            final(self).depth() == old(self).depth(),
    {
        let id = self.c_value.len();
        self.c_value.push(initial);
        self.c_alive.push(true);
        proof {
            let pre = *old(self);
            assert forall|d: int|
                0 <= d < self.n_deriveds() implies wf_expr(
                #[trigger] self.dexprs()[d],
                self.n_cells() as nat,
                d as nat,
            ) by {
                crate::expr::lemma_wf_expr_mono(
                    self.dexprs()[d],
                    pre.n_cells() as nat,
                    d as nat,
                    self.n_cells() as nat,
                    d as nat,
                );
            }
            assert forall|e: int|
                0 <= e < self.n_effects() implies wf_expr(
                #[trigger] self.eexprs()[e],
                self.n_cells() as nat,
                self.n_deriveds() as nat,
            ) by {
                crate::expr::lemma_wf_expr_mono(
                    self.eexprs()[e],
                    pre.n_cells() as nat,
                    pre.n_deriveds() as nat,
                    self.n_cells() as nat,
                    self.n_deriveds() as nat,
                );
            }
            assert forall|d: int|
                0 <= d < self.n_deriveds() && !self.ddirty()[d] implies #[trigger] self.derived_clean_at(
                d,
            ) by {
                assert(pre.derived_clean_at(d));
                lemma_eval_grow(
                    pre.cvals(),
                    self.cvals(),
                    pre.dexprs(),
                    self.dexprs(),
                    d as nat,
                    self.dexprs()[d],
                );
                assert(reads_e(self.cvals(), self.dexprs(), d as nat, self.dexprs()[d]) == reads_e(
                    pre.cvals(),
                    pre.dexprs(),
                    d as nat,
                    pre.dexprs()[d],
                ));
            }
        }
        id
    }

    /// Reads the current value of cell `c`.  Succeeds exactly when the
    /// cell exists and is alive; a disposed or unknown cell reports
    /// `UseAfterDispose`.
    pub fn read(&self, c: usize) -> (r: Result<i64, RtError>)
        requires
            self.wf(),
        ensures
            c < self.n_cells() && self.calive()[c as int] ==> r == Ok::<i64, RtError>(
                self.cvals()[c as int],
            ),
            !(c < self.n_cells() && self.calive()[c as int]) ==> r == Err::<i64, RtError>(
                RtError::UseAfterDispose,
            ),
    {
        if c < self.c_value.len() && self.c_alive[c] {
            Ok(self.c_value[c])
        } else {
            Err(RtError::UseAfterDispose)
        }
    }

    /// Whether the recorded dependency list `deps` is struck by a write
    /// to cell `c`, under the current dirty flags.
    fn hit_scan(&self, deps: &Vec<Src>, c: usize) -> (b: bool)
        ensures
            b == hit_seq(deps@, self.ddirty(), c),
    {
        let mut k: usize = 0;
        while k < deps.len()
            invariant
                k <= deps@.len(),
                forall|i: int| 0 <= i < k ==> !src_hits(#[trigger] deps@[i], self.ddirty(), c),
            decreases deps@.len() - k,
        {
            let s = deps[k];
            match s {
                Src::Cell(cc) => {
                    if cc == c {
                        assert(src_hits(deps@[k as int], self.ddirty(), c));
                        return true;
                    }
                },
                Src::Derived(j) => {
                    if j < self.d_dirty.len() && self.d_dirty[j] {
                        assert(src_hits(deps@[k as int], self.ddirty(), c));
                        return true;
                    }
                },
            }
            k += 1;
        }
        false
    }

    /// Stores `v` in cell `c`, marks every derived computation whose
    /// recorded dependencies are struck (in rank order, so invalidation
    /// propagates through the derived DAG in one pass), and schedules
    /// every effect whose recorded dependencies are struck.
    fn write_cell(&mut self, c: usize, v: i64)
        requires
            old(self).wf(),
            c < old(self).n_cells(),
        ensures
            final(self).wf(),
            write_cell_post(*old(self), *final(self), c, v),
    {
        let ghost pre = *old(self);
        self.c_value[c] = v;
        let nd = self.d_expr.len();
        let mut i: usize = 0;
        while i < nd
            invariant
                i <= nd,
                nd == self.n_deriveds(),
                c < self.n_cells(),
                self.cvals() == pre.cvals().update(c as int, v),
                self.calive() == pre.calive(),
                self.dexprs() == pre.dexprs(),
                self.dcached() == pre.dcached(),
                self.ddeps() == pre.ddeps(),
                self.dalive() == pre.dalive(),
                effects_unchanged(pre, *self),
                self.pend() == pre.pend(),
                self.log() == pre.log(),
                self.depth() == pre.depth(),
                self.ddirty().len() == nd,
                pre.wf(),
                forall|d: int| 0 <= d < nd && pre.ddirty()[d] ==> #[trigger] self.ddirty()[d],
                forall|d: int| i <= d < nd ==> #[trigger] self.ddirty()[d] == pre.ddirty()[d],
                forall|d: int|
                    0 <= d < nd && #[trigger] self.ddirty()[d] ==> pre.ddirty()[d] || hit_seq(
                        pre.ddeps()[d],
                        self.ddirty(),
                        c,
                    ),
                forall|d: int|
                    0 <= d < i && !self.ddirty()[d] && deps_bounded(pre.ddeps()[d], d)
                        ==> !hit_seq(#[trigger] pre.ddeps()[d], self.ddirty(), c),
            decreases nd - i,
        {
            let ghost before = *self;
            if !self.d_dirty[i] {
                let h = self.hit_scan(&self.d_deps[i], c);
                if h {
                    self.d_dirty[i] = true;
                    proof {
                        assert(self.ddirty() == before.ddirty().update(i as int, true));
                        lemma_hit_mono(pre.ddeps()[i as int], before.ddirty(), self.ddirty(), c);
                        assert forall|d: int|
                            0 <= d < nd && #[trigger] self.ddirty()[d] implies pre.ddirty()[d]
                            || hit_seq(pre.ddeps()[d], self.ddirty(), c) by {
                            if d != i && before.ddirty()[d] && !pre.ddirty()[d] {
                                lemma_hit_mono(
                                    pre.ddeps()[d],
                                    before.ddirty(),
                                    self.ddirty(),
                                    c,
                                );
                            }
                        }
                    }
                }
            }
            proof {
                // A computation left clean at its own step stays clean and
                // unstruck: later marks have higher rank than its bounded
                // dependencies.
                assert forall|d: int|
                    0 <= d < i + 1 && !self.ddirty()[d] && deps_bounded(
                        pre.ddeps()[d],
                        d,
                    ) implies !hit_seq(#[trigger] pre.ddeps()[d], self.ddirty(), c) by {
                    if d < i {
                        if hit_seq(pre.ddeps()[d], self.ddirty(), c) {
                            let k = choose|k: int|
                                0 <= k < pre.ddeps()[d].len() && src_hits(
                                    #[trigger] pre.ddeps()[d][k],
                                    self.ddirty(),
                                    c,
                                );
                            assert(src_hits(pre.ddeps()[d][k], before.ddirty(), c));
                        }
                    } else {
                        // d == i: the scan just reported no strike, or the
                        // entry was already dirty (contradiction).
                        if hit_seq(pre.ddeps()[d], self.ddirty(), c) {
                            let k = choose|k: int|
                                0 <= k < pre.ddeps()[d].len() && src_hits(
                                    #[trigger] pre.ddeps()[d][k],
                                    self.ddirty(),
                                    c,
                                );
                            assert(src_hits(pre.ddeps()[d][k], before.ddirty(), c));
                        }
                    }
                }
            }
            i += 1;
        }
        let ghost dirty2 = self.ddirty();
        let ne = self.e_expr.len();
        let mut k: usize = 0;
        while k < ne
            invariant
                k <= ne,
                ne == self.n_effects(),
                self.pend().len() == ne,
                self.cvals() == pre.cvals().update(c as int, v),
                self.calive() == pre.calive(),
                self.dexprs() == pre.dexprs(),
                self.dcached() == pre.dcached(),
                self.ddirty() == dirty2,
                self.ddeps() == pre.ddeps(),
                self.dalive() == pre.dalive(),
                effects_unchanged(pre, *self),
                self.log() == pre.log(),
                self.depth() == pre.depth(),
                pre.wf(),
                forall|j: int|
                    0 <= j < k ==> #[trigger] self.pend()[j] == (pre.pend()[j] || hit_seq(
                        pre.edeps()[j],
                        dirty2,
                        c,
                    )),
                forall|j: int| k <= j < ne ==> #[trigger] self.pend()[j] == pre.pend()[j],
            decreases ne - k,
        {
            if !self.pending[k] {
                let h = self.hit_scan(&self.e_deps[k], c);
                if h {
                    self.pending[k] = true;
                }
            }
            k += 1;
        }
        proof {
            self.lemma_write_cell_wf(pre, dirty2, c, v);
        }
    }

    /// Re-establishes well-formedness after a write: every derived
    /// computation left clean kept both its value and its read set, by
    /// the framing lemma.
    proof fn lemma_write_cell_wf(&self, pre: Runtime, dirty2: Seq<bool>, c: usize, v: i64)
        requires
            pre.wf(),
            c < pre.n_cells(),
            self.cvals() == pre.cvals().update(c as int, v),
            self.calive() == pre.calive(),
            self.dexprs() == pre.dexprs(),
            self.dcached() == pre.dcached(),
            self.ddirty() == dirty2,
            self.ddeps() == pre.ddeps(),
            self.dalive() == pre.dalive(),
            effects_unchanged(pre, *self),
            self.pend().len() == pre.pend().len(),
            dirty2.len() == pre.n_deriveds(),
            forall|d: int| 0 <= d < pre.n_deriveds() && pre.ddirty()[d] ==> #[trigger] dirty2[d],
            forall|d: int|
                0 <= d < pre.n_deriveds() && !dirty2[d] && deps_bounded(pre.ddeps()[d], d)
                    ==> !hit_seq(#[trigger] pre.ddeps()[d], dirty2, c),
        ensures
            self.wf(),
    {
        // Clean computations have accurate, rank-bounded dependency lists.
        assert forall|d: int|
            0 <= d < pre.n_deriveds() && !dirty2[d] implies deps_bounded(pre.ddeps()[d], d) by {
            assert(pre.derived_clean_at(d));
            lemma_reads_bounded(
                pre.cvals(),
                pre.dexprs(),
                d as nat,
                pre.dexprs()[d],
                pre.n_cells() as nat,
            );
            assert forall|kk: int| 0 <= kk < pre.ddeps()[d].len() implies (match #[trigger] pre.ddeps()[d][kk] {
                Src::Cell(_) => true,
                Src::Derived(j) => j < d,
            }) by {
                let s = pre.ddeps()[d][kk];
                assert(pre.ddeps()[d].contains(s));
                assert(reads_e(pre.cvals(), pre.dexprs(), d as nat, pre.dexprs()[d]).contains(s));
                assert(src_in_range(s, pre.n_cells() as nat, d as nat));
            }
        }
        assert forall|d: int|
            0 <= d < pre.n_deriveds() && !dirty2[d] implies (forall|s: Src|
            #[trigger] pre.ddeps()[d].contains(s) <==> reads_e(
                pre.cvals(),
                pre.dexprs(),
                d as nat,
                pre.dexprs()[d],
            ).contains(s)) by {
            assert(pre.derived_clean_at(d));
        }
        assert(clean_frame_ok(pre.cvals(), pre.dexprs(), pre.ddeps(), dirty2, c));
        assert forall|d: int|
            0 <= d < self.n_deriveds() && !self.ddirty()[d] implies #[trigger] self.derived_clean_at(
            d,
        ) by {
            assert(pre.derived_clean_at(d));
            lemma_reads_bounded(
                pre.cvals(),
                pre.dexprs(),
                d as nat,
                pre.dexprs()[d],
                pre.n_cells() as nat,
            );
            assert forall|s: Src|
                #[trigger] reads_e(pre.cvals(), pre.dexprs(), d as nat, pre.dexprs()[d]).contains(
                    s,
                ) implies src_calm(s, dirty2, c) by {
                assert(pre.ddeps()[d].contains(s));
                let kk = choose|kk: int|
                    0 <= kk < pre.ddeps()[d].len() && pre.ddeps()[d][kk] == s;
                assert(src_in_range(s, pre.n_cells() as nat, d as nat));
                if !src_calm(s, dirty2, c) {
                    assert(src_hits(pre.ddeps()[d][kk], dirty2, c));
                    assert(hit_seq(pre.ddeps()[d], dirty2, c));
                }
            }
            lemma_eval_frame(
                pre.cvals(),
                self.cvals(),
                pre.dexprs(),
                pre.ddeps(),
                dirty2,
                c,
                d as nat,
                pre.dexprs()[d],
            );
            assert(self.dcached()[d] == pre.dcached()[d]);
            assert(pre.dcached()[d] == pre.dval(d));
            assert(eval_e(self.cvals(), pre.dexprs(), d as nat, pre.dexprs()[d]) == eval_e(
                pre.cvals(),
                pre.dexprs(),
                d as nat,
                pre.dexprs()[d],
            ));
            assert(reads_e(self.cvals(), self.dexprs(), d as nat, self.dexprs()[d]) == reads_e(
                pre.cvals(),
                pre.dexprs(),
                d as nat,
                pre.dexprs()[d],
            ));
        }
    }

    /// Writes `v` to cell `c`.  Succeeds exactly when the cell exists
    /// and is alive; the value is stored unconditionally, dependents are
    /// invalidated and subscribed effects scheduled, but no effect runs
    /// until the next flush.  A disposed or unknown cell reports
    /// `UseAfterDispose` and changes nothing.
    pub fn write(&mut self, c: usize, v: i64) -> (r: Result<(), RtError>)
        requires
            old(self).wf(),
        ensures
            final(self).wf(),
            c < old(self).n_cells() && old(self).calive()[c as int] ==> r == Ok::<(), RtError>(())
                && write_cell_post(*old(self), *final(self), c, v),
            !(c < old(self).n_cells() && old(self).calive()[c as int]) ==> r == Err::<(), RtError>(
                RtError::UseAfterDispose,
            ) && *final(self) == *old(self),
    {
        if c < self.c_value.len() && self.c_alive[c] {
            self.write_cell(c, v);
            Ok(())
        } else {
            Err(RtError::UseAfterDispose)
        }
    }

    /// Evaluates an expression against the current state, returning its
    /// value and the list of sources it read.  A clean derived
    /// computation is answered from its memoized value; a dirty one is
    /// recomputed on the fly (without storing, which `get` does).
    fn eval(&self, e: &Expr, Ghost(rank): Ghost<nat>) -> (r: (i64, Vec<Src>))
        requires
            self.wf(),
            rank <= self.n_deriveds(),
            wf_expr(*e, self.n_cells() as nat, rank),
        ensures
            r.0 == eval_e(self.cvals(), self.dexprs(), rank, *e),
            forall|s: Src| #[trigger]
                r.1@.contains(s) <==> reads_e(self.cvals(), self.dexprs(), rank, *e).contains(s),
        decreases rank, *e,
    {
        match e {
            Expr::Lit(v) => {
                let dv: Vec<Src> = Vec::new();
                (*v, dv)
            },
            Expr::ReadCell(c) => {
                let mut dv: Vec<Src> = Vec::new();
                dv.push(Src::Cell(*c));
                proof {
                    assert(dv@[0] == Src::Cell(*c));
                }
                (self.c_value[*c], dv)
            },
            Expr::ReadDerived(d) => {
                let dd: usize = *d;
                let mut dv: Vec<Src> = Vec::new();
                dv.push(Src::Derived(dd));
                proof {
                    assert(dv@[0] == Src::Derived(dd));
                }
                let val: i64;
                if !self.d_dirty[dd] {
                    proof {
                        assert(self.derived_clean_at(dd as int));
                    }
                    val = self.d_cached[dd];
                } else {
                    let sub = self.eval(&self.d_expr[dd], Ghost(dd as nat));
                    val = sub.0;
                }
                (val, dv)
            },
            Expr::Add(l, rr) => {
                let lr = self.eval(&**l, Ghost(rank));
                let rres = self.eval(&**rr, Ghost(rank));
                let ghost a = lr.1@;
                let ghost b = rres.1@;
                let mut dv = lr.1;
                let mut dv2 = rres.1;
                dv.append(&mut dv2);
                proof {
                    assert forall|s: Src| #[trigger]
                        dv@.contains(s) <==> reads_e(
                        self.cvals(),
                        self.dexprs(),
                        rank,
                        *e,
                    ).contains(s) by {
                        crate::expr::lemma_concat_contains(a, b, s);
                    }
                }
                (lr.0.wrapping_add(rres.0), dv)
            },
            Expr::Mul(l, rr) => {
                let lr = self.eval(&**l, Ghost(rank));
                let rres = self.eval(&**rr, Ghost(rank));
                let ghost a = lr.1@;
                let ghost b = rres.1@;
                let mut dv = lr.1;
                let mut dv2 = rres.1;
                dv.append(&mut dv2);
                proof {
                    assert forall|s: Src| #[trigger]
                        dv@.contains(s) <==> reads_e(
                        self.cvals(),
                        self.dexprs(),
                        rank,
                        *e,
                    ).contains(s) by {
                        crate::expr::lemma_concat_contains(a, b, s);
                    }
                }
                (lr.0.wrapping_mul(rres.0), dv)
            },
            Expr::IfNonZero(cd, t, f) => {
                let cres = self.eval(&**cd, Ghost(rank));
                let ghost a = cres.1@;
                let mut dv = cres.1;
                let branch = if cres.0 != 0 {
                    self.eval(&**t, Ghost(rank))
                } else {
                    self.eval(&**f, Ghost(rank))
                };
                let ghost b = branch.1@;
                let mut dv2 = branch.1;
                dv.append(&mut dv2);
                proof {
                    assert forall|s: Src| #[trigger]
                        dv@.contains(s) <==> reads_e(
                        self.cvals(),
                        self.dexprs(),
                        rank,
                        *e,
                    ).contains(s) by {
                        crate::expr::lemma_concat_contains(a, b, s);
                    }
                }
                (branch.0, dv)
            },
        }
    }

    /// Reads derived computation `d`: the memoized value if it is clean,
    /// otherwise its expression is recomputed, the value memoized, the
    /// dependency list re-recorded and the dirty flag cleared
    /// (lazy-pull).  The result is always the computation's mathematical
    /// value over the current cell values.  A disposed or unknown
    /// identifier reports `UseAfterDispose` and changes nothing.
    pub fn get(&mut self, d: usize) -> (r: Result<i64, RtError>)
        requires
            old(self).wf(),
        ensures
            final(self).wf(),
            d < old(self).n_deriveds() && old(self).dalive()[d as int] ==> ({
                &&& r == Ok::<i64, RtError>(old(self).dval(d as int))
                &&& cells_unchanged(*old(self), *final(self))
                &&& final(self).dexprs() == old(self).dexprs()
                &&& final(self).dalive() == old(self).dalive()
                &&& effects_unchanged(*old(self), *final(self))
                &&& final(self).pend() == old(self).pend()
                &&& final(self).log() == old(self).log()
                &&& final(self).depth() == old(self).depth()
                &&& forall|j: int|
                    0 <= j < old(self).n_deriveds() && j != d ==> #[trigger] final(self).dcached()[j] == old(self).dcached()[j] && final(self).ddirty()[j] == old(self).ddirty()[j] && final(self).ddeps()[j] == old(self).ddeps()[j]
                &&& !final(self).ddirty()[d as int]
            }),
            !(d < old(self).n_deriveds() && old(self).dalive()[d as int]) ==> r == Err::<
                i64,
                RtError,
            >(RtError::UseAfterDispose) && *final(self) == *old(self),
    {
        if d < self.d_expr.len() && self.d_alive[d] {
            if !self.d_dirty[d] {
                proof {
                    assert(self.derived_clean_at(d as int));
                }
                Ok(self.d_cached[d])
            } else {
                let res = self.eval(&self.d_expr[d], Ghost(d as nat));
                let v = res.0;
                self.d_cached[d] = v;
                self.d_dirty[d] = false;
                self.d_deps[d] = res.1;
                proof {
                    let pre = *old(self);
                    assert(self.dcached() == pre.dcached().update(d as int, v));
                    assert(self.ddirty() == pre.ddirty().update(d as int, false));
                    assert(self.ddeps() =~= pre.ddeps().update(d as int, res.1@));
                    assert forall|j: int|
                        0 <= j < self.n_deriveds() && !self.ddirty()[j] implies #[trigger] self.derived_clean_at(
                        j,
                    ) by {
                        if j != d {
                            assert(pre.derived_clean_at(j));
                            assert(self.dcached()[j] == pre.dcached()[j]);
                            assert(self.ddeps()[j] == pre.ddeps()[j]);
                        }
                    }
                }
                Ok(v)
            }
        } else {
            Err(RtError::UseAfterDispose)
        }
    }

    /// Creates a derived computation with body `e` and returns its
    /// identifier.  The body may read cells and derived computations
    /// created earlier; a body naming this computation itself or
    /// anything not created yet is a self-referential computation and is
    /// rejected with `ReentrantTrackingViolation`.  The new computation
    /// starts dirty and is first computed at its first read.
    pub fn create_derived(&mut self, e: Expr) -> (r: Result<usize, RtError>)
        requires
            old(self).wf(),
        ensures
            final(self).wf(),
            wf_expr(e, old(self).n_cells() as nat, old(self).n_deriveds() as nat) ==> ({
                &&& r == Ok::<usize, RtError>(old(self).n_deriveds() as usize)
                &&& final(self).dexprs() == old(self).dexprs().push(e)
                &&& final(self).dcached() == old(self).dcached().push(0)
                &&& final(self).ddirty() == old(self).ddirty().push(true)
                &&& final(self).dalive() == old(self).dalive().push(true)
                &&& cells_unchanged(*old(self), *final(self))
                &&& effects_unchanged(*old(self), *final(self))
                &&& final(self).pend() == old(self).pend()
                &&& final(self).log() == old(self).log()
                &&& final(self).depth() == old(self).depth()
            }),
            !wf_expr(e, old(self).n_cells() as nat, old(self).n_deriveds() as nat) ==> r == Err::<
                usize,
                RtError,
            >(RtError::ReentrantTrackingViolation) && *final(self) == *old(self),
    {
        let ok = check_expr(&e, self.c_value.len(), self.d_expr.len());
        if !ok {
            return Err(RtError::ReentrantTrackingViolation);
        }
        let id = self.d_expr.len();
        self.d_expr.push(e);
        self.d_cached.push(0);
        self.d_dirty.push(true);
        self.d_deps.push(Vec::new());
        self.d_alive.push(true);
        proof {
            let pre = *old(self);
            assert(self.ddeps() =~= pre.ddeps().push(Seq::<Src>::empty()));
            assert forall|ee: int|
                0 <= ee < self.n_effects() implies wf_expr(
                #[trigger] self.eexprs()[ee],
                self.n_cells() as nat,
                self.n_deriveds() as nat,
            ) by {
                crate::expr::lemma_wf_expr_mono(
                    self.eexprs()[ee],
                    pre.n_cells() as nat,
                    pre.n_deriveds() as nat,
                    self.n_cells() as nat,
                    self.n_deriveds() as nat,
                );
            }
            assert forall|j: int|
                0 <= j < self.n_deriveds() && !self.ddirty()[j] implies #[trigger] self.derived_clean_at(
                j,
            ) by {
                assert(j < pre.n_deriveds());
                assert(pre.derived_clean_at(j));
                lemma_eval_grow(
                    pre.cvals(),
                    self.cvals(),
                    pre.dexprs(),
                    self.dexprs(),
                    j as nat,
                    self.dexprs()[j],
                );
                assert(reads_e(self.cvals(), self.dexprs(), j as nat, self.dexprs()[j]) == reads_e(
                    pre.cvals(),
                    pre.dexprs(),
                    j as nat,
                    pre.dexprs()[j],
                ));
            }
        }
        Ok(id)
    }

    /// Runs effect `eid` now: evaluates its body, re-records its
    /// dependency set (clear-then-record, so stale edges are dropped),
    /// appends the produced value to the run log, and, if the effect
    /// writes a cell, performs that write with full invalidation and
    /// scheduling.  A write to a disposed target cell is dropped.
    fn run_effect(&mut self, eid: usize)
        requires
            old(self).wf(),
            eid < old(self).n_effects(),
            old(self).ealive()[eid as int],
        ensures
            final(self).wf(),
            shape_unchanged(*old(self), *final(self)),
            final(self).depth() == old(self).depth(),
            final(self).log() == old(self).log().push(
                RunRecord { effect: eid, value: old(self).effect_val(eid as int) },
            ),
            forall|j: int|
                0 <= j < old(self).n_effects() && j != eid ==> #[trigger] final(self).edeps()[j]
                    == old(self).edeps()[j],
            forall|s: Src| #[trigger]
                final(self).edeps()[eid as int].contains(s) <==> old(self).effect_reads(
                    eid as int,
                ).contains(s),
            final(self).pend().len() == old(self).pend().len(),
            forall|k: int|
                0 <= k < old(self).pend().len() && old(self).pend()[k] ==> #[trigger] final(self).pend()[k],
            old(self).etargets()[eid as int] is None ==> ({
                &&& final(self).cvals() == old(self).cvals()
                &&& final(self).dcached() == old(self).dcached()
                &&& final(self).ddirty() == old(self).ddirty()
                &&& final(self).ddeps() == old(self).ddeps()
                &&& final(self).pend() == old(self).pend()
            }),
            (match old(self).etargets()[eid as int] {
                Option::Some(t) => old(self).calive()[t as int] ==> ({
                    &&& final(self).cvals() == old(self).cvals().update(
                        t as int,
                        old(self).effect_val(eid as int),
                    )
                    &&& final(self).dcached() == old(self).dcached()
                    &&& final(self).ddeps() == old(self).ddeps()
                    &&& mark_pend_post(
                        old(self).ddeps(),
                        old(self).ddirty(),
                        final(self).ddirty(),
                        final(self).edeps(),
                        old(self).pend(),
                        final(self).pend(),
                        t,
                    )
                }),
                Option::None => true,
            }),
            (match old(self).etargets()[eid as int] {
                Option::Some(t) => !old(self).calive()[t as int] ==> ({
                    &&& final(self).cvals() == old(self).cvals()
                    &&& final(self).dcached() == old(self).dcached()
                    &&& final(self).ddirty() == old(self).ddirty()
                    &&& final(self).ddeps() == old(self).ddeps()
                    &&& final(self).pend() == old(self).pend()
                }),
                Option::None => true,
            }),
            (match old(self).etargets()[eid as int] {
                Option::Some(t) => (old(self).calive()[t as int] && surely_reads(
                    old(self).eexprs()[eid as int],
                    t,
                )) ==> final(self).pend()[eid as int],
                Option::None => true,
            }),
    {
        let ghost pre = *old(self);
        let res = self.eval(&self.e_expr[eid], Ghost(self.dexprs().len()));
        let v = res.0;
        self.e_deps[eid] = res.1;
        self.run_log.push(RunRecord { effect: eid, value: v });
        proof {
            assert(self.edeps() =~= pre.edeps().update(eid as int, res.1@));
            lemma_wf_like(pre, *self);
        }
        let ghost mid = *self;
        let tgt = self.e_target[eid];
        match tgt {
            Option::None => {},
            Option::Some(t) => {
                if self.c_alive[t] {
                    self.write_cell(t, v);
                    proof {
                        if surely_reads(pre.eexprs()[eid as int], t) {
                            lemma_surely_reads(
                                pre.cvals(),
                                pre.dexprs(),
                                pre.dexprs().len(),
                                pre.eexprs()[eid as int],
                                t,
                            );
                            assert(mid.edeps()[eid as int].contains(Src::Cell(t)));
                            let k = choose|k: int|
                                0 <= k < mid.edeps()[eid as int].len() && mid.edeps()[eid as int][k]
                                    == Src::Cell(t);
                            assert(src_hits(mid.edeps()[eid as int][k], self.ddirty(), t));
                            assert(hit_seq(mid.edeps()[eid as int], self.ddirty(), t));
                            assert(self.pend()[eid as int]);
                        }
                    }
                }
            },
        }
    }

    /// Creates an effect with body `e` and, optionally, one target cell
    /// the produced value is written to, and returns its identifier.
    /// The effect runs once immediately: its recorded dependency set is
    /// exactly what evaluating `e` reads under the current state, its
    /// first value is logged, and, if it writes a live target cell, that
    /// write is performed with full invalidation and scheduling — in
    /// particular, an effect whose body surely reads its own live target
    /// ends scheduled.  A body naming a derived computation that does
    /// not exist yet, or a target cell that does not exist, is rejected
    /// with `ReentrantTrackingViolation`.
    pub fn create_effect(&mut self, e: Expr, target: Option<usize>) -> (r: Result<usize, RtError>)
        requires
            old(self).wf(),
        ensures
            final(self).wf(),
            (wf_expr(e, old(self).n_cells() as nat, old(self).n_deriveds() as nat) && (match target {
                Option::Some(t) => t < old(self).n_cells(),
                Option::None => true,
            })) ==> ({
                &&& r == Ok::<usize, RtError>(old(self).n_effects() as usize)
                &&& final(self).eexprs() == old(self).eexprs().push(e)
                &&& final(self).etargets() == old(self).etargets().push(target)
                &&& final(self).ealive() == old(self).ealive().push(true)
                &&& final(self).n_cells() == old(self).n_cells()
                &&& final(self).calive() == old(self).calive()
                &&& final(self).dexprs() == old(self).dexprs()
                &&& final(self).dalive() == old(self).dalive()
                &&& final(self).depth() == old(self).depth()
                &&& final(self).log() == old(self).log().push(
                    RunRecord {
                        effect: old(self).n_effects() as usize,
                        value: eval_e(
                            old(self).cvals(),
                            old(self).dexprs(),
                            old(self).dexprs().len(),
                            e,
                        ),
                    },
                )
                &&& forall|j: int|
                    0 <= j < old(self).n_effects() ==> #[trigger] final(self).edeps()[j] == old(self).edeps()[j]
                &&& forall|s: Src| #[trigger]
                    final(self).edeps()[old(self).n_effects()].contains(s) <==> reads_e(
                        old(self).cvals(),
                        old(self).dexprs(),
                        old(self).dexprs().len(),
                        e,
                    ).contains(s)
                &&& target is None ==> ({
                    &&& final(self).cvals() == old(self).cvals()
                    &&& final(self).dcached() == old(self).dcached()
                    &&& final(self).ddirty() == old(self).ddirty()
                    &&& final(self).ddeps() == old(self).ddeps()
                    &&& final(self).pend() == old(self).pend().push(false)
                })
                &&& (match target {
                    Option::Some(t) => old(self).calive()[t as int] ==> ({
                        &&& final(self).cvals() == old(self).cvals().update(
                            t as int,
                            eval_e(
                                old(self).cvals(),
                                old(self).dexprs(),
                                old(self).dexprs().len(),
                                e,
                            ),
                        )
                        &&& final(self).dcached() == old(self).dcached()
                        &&& final(self).ddeps() == old(self).ddeps()
                        &&& mark_pend_post(
                            old(self).ddeps(),
                            old(self).ddirty(),
                            final(self).ddirty(),
                            final(self).edeps(),
                            old(self).pend().push(false),
                            final(self).pend(),
                            t,
                        )
                        &&& surely_reads(e, t) ==> final(self).pend()[old(self).n_effects()]
                    }),
                    Option::None => true,
                })
                &&& (match target {
                    Option::Some(t) => !old(self).calive()[t as int] ==> ({
                        &&& final(self).cvals() == old(self).cvals()
                        &&& final(self).dcached() == old(self).dcached()
                        &&& final(self).ddirty() == old(self).ddirty()
                        &&& final(self).ddeps() == old(self).ddeps()
                        &&& final(self).pend() == old(self).pend().push(false)
                    }),
                    Option::None => true,
                })
            }),
            !(wf_expr(e, old(self).n_cells() as nat, old(self).n_deriveds() as nat) && (match target {
                Option::Some(t) => t < old(self).n_cells(),
                Option::None => true,
            })) ==> r == Err::<usize, RtError>(RtError::ReentrantTrackingViolation) && *final(self)
                == *old(self),
    {
        let ok = check_expr(&e, self.c_value.len(), self.d_expr.len());
        let tgt_ok = match target {
            Option::Some(t) => t < self.c_value.len(),
            Option::None => true,
        };
        if !(ok && tgt_ok) {
            return Err(RtError::ReentrantTrackingViolation);
        }
        let id = self.e_expr.len();
        self.e_expr.push(e);
        self.e_target.push(target);
        self.e_deps.push(Vec::new());
        self.e_alive.push(true);
        self.pending.push(false);
        proof {
            let pre = *old(self);
            assert(self.edeps() =~= pre.edeps().push(Seq::<Src>::empty()));
            assert forall|ee: int|
                0 <= ee < self.n_effects() implies wf_expr(
                #[trigger] self.eexprs()[ee],
                self.n_cells() as nat,
                self.n_deriveds() as nat,
            ) by {
                if ee < pre.n_effects() {
                    assert(self.eexprs()[ee] == pre.eexprs()[ee]);
                    assert(wf_expr(pre.eexprs()[ee], pre.n_cells() as nat, pre.n_deriveds() as nat));
                } else {
                    assert(self.eexprs()[ee] == e);
                }
            }
            assert forall|ee: int|
                0 <= ee < self.n_effects() implies (match #[trigger] self.etargets()[ee] {
                Option::Some(t) => t < self.n_cells(),
                Option::None => true,
            }) by {
                if ee < pre.n_effects() {
                    assert(self.etargets()[ee] == pre.etargets()[ee]);
                    assert(match pre.etargets()[ee] {
                        Option::Some(t) => t < pre.n_cells(),
                        Option::None => true,
                    });
                } else {
                    assert(self.etargets()[ee] == target);
                }
            }
            assert forall|j: int|
                0 <= j < self.n_deriveds() && !self.ddirty()[j] implies #[trigger] self.derived_clean_at(
                j,
            ) by {
                assert(pre.derived_clean_at(j));
            }
        }
        let ghost mid = *self;
        self.run_effect(id);
        proof {
            let pre = *old(self);
            assert forall|j: int|
                0 <= j < pre.n_effects() implies #[trigger] self.edeps()[j] == pre.edeps()[j] by {
                assert(self.edeps()[j] == mid.edeps()[j]);
                assert(mid.edeps()[j] == pre.edeps()[j]);
            }
            assert(mid.eexprs()[id as int] == e);
            assert(mid.etargets()[id as int] == target);
            assert(mid.cvals() == pre.cvals());
            assert(mid.dexprs() == pre.dexprs());
            assert(mid.ddeps() == pre.ddeps());
            assert(mid.ddirty() == pre.ddirty());
            assert(mid.pend() == pre.pend().push(false));
        }
        Ok(id)
    }

    /// How many effect runs the log holds.
    pub fn log_len(&self) -> (n: usize)
        ensures
            n == self.log().len(),
    {
        self.run_log.len()
    }

    /// The `i`-th entry of the run log, oldest first.
    pub fn log_at(&self, i: usize) -> (r: Option<RunRecord>)
        ensures
            i < self.log().len() ==> r == Some(self.log()[i as int]),
            i >= self.log().len() ==> r is None,
    {
        if i < self.run_log.len() {
            Some(self.run_log[i])
        } else {
            None
        }
    }

    /// Whether any effect is scheduled.
    fn any_pending(&self) -> (b: bool)
        ensures
            b == exists|k: int| 0 <= k < self.pend().len() && #[trigger] self.pend()[k],
    {
        let mut k: usize = 0;
        while k < self.pending.len()
            invariant
                k <= self.pend().len(),
                forall|j: int| 0 <= j < k ==> !(#[trigger] self.pend()[j]),
            decreases self.pend().len() - k,
        {
            if self.pending[k] {
                return true;
            }
            k += 1;
        }
        false
    }

    /// One scheduler pass: takes the currently scheduled set, clears it,
    /// and runs each scheduled live effect once in identifier order.
    /// Effects scheduled by writes performed during the pass are left
    /// for the next pass.
    fn flush_pass(&mut self)
        requires
            old(self).wf(),
        ensures
            final(self).wf(),
            shape_unchanged(*old(self), *final(self)),
            final(self).depth() == old(self).depth(),
            final(self).pend().len() == old(self).pend().len(),
            old(self).log().is_prefix_of(final(self).log()),
            forall|i: int|
                old(self).log().len() <= i < final(self).log().len() ==> 0 <= (#[trigger] final(self).log()[i]).effect < old(self).n_effects() && old(self).ealive()[final(self).log()[i].effect as int],
            forall|j: int|
                cyc_shape(*old(self), j) && old(self).pend()[j] ==> #[trigger] final(self).pend()[j],
            forall|j: int|
                0 <= j < old(self).n_effects() && #[trigger] old(self).pend()[j] && old(self).ealive()[j] ==> (exists|i2: int|
                    old(self).log().len() <= i2 < final(self).log().len() && (#[trigger] final(self).log()[i2]).effect == j),
            no_writer_pending(*old(self)) ==> ({
                &&& final(self).cvals() == old(self).cvals()
                &&& final(self).dcached() == old(self).dcached()
                &&& final(self).ddirty() == old(self).ddirty()
                &&& final(self).ddeps() == old(self).ddeps()
                &&& forall|k: int| 0 <= k < final(self).pend().len() ==> !(#[trigger] final(self).pend()[k])
                &&& final(self).log() == old(self).log() + flush_delta(
                    *old(self),
                    old(self).n_effects(),
                )
                &&& forall|j: int|
                    0 <= j < old(self).n_effects() && #[trigger] old(self).pend()[j] && old(self).ealive()[j] ==> (forall|s: Src|
                        #[trigger] final(self).edeps()[j].contains(s) <==> old(self).effect_reads(j).contains(s))
                &&& forall|j: int|
                    0 <= j < old(self).n_effects() && !(old(self).pend()[j] && old(self).ealive()[j])
                        ==> #[trigger] final(self).edeps()[j] == old(self).edeps()[j]
            }),
    {
        let ghost rt0 = *old(self);
        let ne = self.e_expr.len();
        let mut snap: Vec<bool> = Vec::new();
        let mut i: usize = 0;
        while i < ne
            invariant
                i <= ne,
                ne == self.pend().len(),
                snap@.len() == i,
                forall|j: int| 0 <= j < i ==> #[trigger] snap@[j] == self.pend()[j],
                *self == rt0,
                rt0.wf(),
                ne == rt0.n_effects(),
            decreases ne - i,
        {
            snap.push(self.pending[i]);
            i += 1;
        }
        i = 0;
        while i < ne
            invariant
                i <= ne,
                ne == self.pend().len(),
                snap@.len() == ne,
                forall|j: int| 0 <= j < ne ==> #[trigger] snap@[j] == rt0.pend()[j],
                forall|j: int| 0 <= j < i ==> !(#[trigger] self.pend()[j]),
                forall|j: int| i <= j < ne ==> #[trigger] self.pend()[j] == rt0.pend()[j],
                self.cvals() == rt0.cvals(),
                self.calive() == rt0.calive(),
                self.dexprs() == rt0.dexprs(),
                self.dcached() == rt0.dcached(),
                self.ddirty() == rt0.ddirty(),
                self.ddeps() == rt0.ddeps(),
                self.dalive() == rt0.dalive(),
                effects_unchanged(rt0, *self),
                self.log() == rt0.log(),
                self.depth() == rt0.depth(),
                rt0.wf(),
                ne == rt0.n_effects(),
            decreases ne - i,
        {
            self.pending[i] = false;
            i += 1;
        }
        proof {
            lemma_wf_like(rt0, *self);
            assert(self.log().subrange(0, rt0.log().len() as int) =~= rt0.log());
            assert(rt0.log() + flush_delta(rt0, 0) =~= rt0.log());
        }
        let mut eid: usize = 0;
        while eid < ne
            invariant
                eid <= ne,
                ne == self.n_effects(),
                self.wf(),
                shape_unchanged(rt0, *self),
                self.depth() == rt0.depth(),
                self.pend().len() == ne,
                snap@.len() == ne,
                forall|j: int| 0 <= j < ne ==> #[trigger] snap@[j] == rt0.pend()[j],
                rt0.log().is_prefix_of(self.log()),
                forall|i2: int|
                    rt0.log().len() <= i2 < self.log().len() ==> 0 <= (#[trigger] self.log()[i2]).effect
                        < ne && rt0.ealive()[self.log()[i2].effect as int],
                forall|j: int|
                    cyc_shape(rt0, j) && rt0.pend()[j] ==> #[trigger] self.pend()[j] || eid <= j,
                forall|j: int|
                    0 <= j < eid && #[trigger] snap@[j] && rt0.ealive()[j] ==> (exists|i2: int|
                        rt0.log().len() <= i2 < self.log().len() && (#[trigger] self.log()[i2]).effect
                            == j),
                no_writer_pending(rt0) ==> ({
                    &&& self.cvals() == rt0.cvals()
                    &&& self.dcached() == rt0.dcached()
                    &&& self.ddirty() == rt0.ddirty()
                    &&& self.ddeps() == rt0.ddeps()
                    &&& forall|k: int| 0 <= k < ne ==> !(#[trigger] self.pend()[k])
                    &&& self.log() == rt0.log() + flush_delta(rt0, eid as int)
                    &&& forall|j: int|
                        0 <= j < eid && #[trigger] snap@[j] && rt0.ealive()[j] ==> (forall|s: Src|
                            #[trigger] self.edeps()[j].contains(s) <==> rt0.effect_reads(
                                j,
                            ).contains(s))
                    &&& forall|j: int|
                        0 <= j < ne && !(j < eid && snap@[j] && rt0.ealive()[j])
                            ==> #[trigger] self.edeps()[j] == rt0.edeps()[j]
                }),
                rt0.wf(),
            decreases ne - eid,
        {
            let ghost before = *self;
            if snap[eid] && self.e_alive[eid] {
                self.run_effect(eid);
                proof {
                    assert(rt0.log().is_prefix_of(self.log())) by {
                        assert(self.log().subrange(0, rt0.log().len() as int)
                            =~= before.log().subrange(0, rt0.log().len() as int));
                    }
                    if no_writer_pending(rt0) {
                        assert(rt0.pend()[eid as int] && rt0.ealive()[eid as int]);
                        assert(rt0.etargets()[eid as int] is None);
                        assert(before.etargets()[eid as int] is None);
                        assert(before.effect_val(eid as int) == rt0.effect_val(eid as int));
                        assert(self.log() =~= rt0.log() + flush_delta(rt0, eid + 1));
                        assert(before.effect_reads(eid as int) == rt0.effect_reads(eid as int));
                        assert forall|j: int|
                            0 <= j < eid + 1 && #[trigger] snap@[j] && rt0.ealive()[j] implies (
                        forall|s: Src|
                            #[trigger] self.edeps()[j].contains(s) <==> rt0.effect_reads(
                                j,
                            ).contains(s)) by {
                            if j != eid {
                                assert(self.edeps()[j] == before.edeps()[j]);
                            }
                        }
                        assert forall|j: int|
                            0 <= j < ne && !(j < eid + 1 && snap@[j] && rt0.ealive()[j]) implies #[trigger] self.edeps()[j]
                            == rt0.edeps()[j] by {
                            assert(self.edeps()[j] == before.edeps()[j]);
                        }
                    }
                    if cyc_shape(rt0, eid as int) {
                        assert(self.pend()[eid as int]);
                    }
                    assert forall|j: int|
                        cyc_shape(rt0, j) && rt0.pend()[j] implies #[trigger] self.pend()[j] || eid
                        + 1 <= j by {
                        if j < eid && before.pend()[j] {
                            assert(self.pend()[j]);
                        }
                    }
                    assert forall|j: int|
                        0 <= j < eid + 1 && #[trigger] snap@[j] && rt0.ealive()[j] implies (
                    exists|i2: int|
                        rt0.log().len() <= i2 < self.log().len() && (#[trigger] self.log()[i2]).effect
                            == j) by {
                        if j == eid {
                            assert(self.log()[before.log().len() as int].effect == eid);
                            assert(rt0.log().len() <= before.log().len() < self.log().len());
                        } else {
                            let i2 = choose|i2: int|
                                rt0.log().len() <= i2 < before.log().len() && (#[trigger] before.log()[i2]).effect
                                    == j;
                            assert(self.log()[i2] == before.log()[i2]);
                        }
                    }
                }
            } else {
                proof {
                    if no_writer_pending(rt0) {
                        assert(flush_delta(rt0, eid + 1) == flush_delta(rt0, eid as int));
                        assert(self.log() == rt0.log() + flush_delta(rt0, eid + 1));
                    }
                }
            }
            eid += 1;
        }
        proof {
            assert forall|j: int|
                0 <= j < ne && #[trigger] rt0.pend()[j] && rt0.ealive()[j] implies (exists|i2: int|
                rt0.log().len() <= i2 < self.log().len() && (#[trigger] self.log()[i2]).effect
                    == j) by {
                assert(snap@[j] == rt0.pend()[j]);
            }
            if no_writer_pending(rt0) {
                assert forall|j: int|
                    0 <= j < ne && #[trigger] rt0.pend()[j] && rt0.ealive()[j] implies (forall|
                    s: Src,
                |
                    #[trigger] self.edeps()[j].contains(s) <==> rt0.effect_reads(j).contains(
                        s,
                    )) by {
                    assert(snap@[j] == rt0.pend()[j]);
                }
                assert forall|j: int|
                    0 <= j < ne && !(rt0.pend()[j] && rt0.ealive()[j]) implies #[trigger] self.edeps()[j]
                    == rt0.edeps()[j] by {
                    assert(snap@[j] == rt0.pend()[j]);
                }
            }
        }
    }

    /// Runs the scheduler until no effect is scheduled: each pass runs
    /// every scheduled live effect once; writes performed by effects
    /// schedule further passes.  If the pending set is still not empty
    /// after `MAX_FLUSH_PASSES` passes, the dependency graph contains a
    /// true update cycle and `CyclicUpdateError` is reported (scheduled
    /// work is kept for a later flush).  With no scheduled writer the
    /// flush settles in one pass, running each scheduled live effect
    /// exactly once, in identifier order, with the current cell values.
    pub fn flush(&mut self) -> (r: Result<(), RtError>)
        requires
            old(self).wf(),
        ensures
            flush_spec(*old(self), *final(self), r),
            final(self).depth() == old(self).depth(),
    {
        let ghost rt0 = *old(self);
        let mut passes: usize = 0;
        while passes < MAX_FLUSH_PASSES
            invariant
                rt0 == *old(self),
                old(self).wf(),
                self.wf(),
                shape_unchanged(rt0, *self),
                self.depth() == rt0.depth(),
                self.pend().len() == rt0.pend().len(),
                rt0.log().is_prefix_of(self.log()),
                forall|i: int|
                    rt0.log().len() <= i < self.log().len() ==> 0 <= (#[trigger] self.log()[i]).effect
                        < rt0.n_effects() && rt0.ealive()[self.log()[i].effect as int],
                forall|e: int| spec_cycle(rt0, e) ==> #[trigger] self.pend()[e],
                passes == 0 ==> *self == rt0,
                passes >= 1 ==> (forall|j: int|
                    0 <= j < rt0.n_effects() && #[trigger] rt0.pend()[j] && rt0.ealive()[j] ==> (
                    exists|i2: int|
                        rt0.log().len() <= i2 < self.log().len() && (#[trigger] self.log()[i2]).effect
                            == j)),
                no_writer_pending(rt0) ==> ((passes == 0 && *self == rt0) || (passes == 1 && ({
                    &&& self.cvals() == rt0.cvals()
                    &&& self.dcached() == rt0.dcached()
                    &&& self.ddirty() == rt0.ddirty()
                    &&& self.ddeps() == rt0.ddeps()
                    &&& forall|k: int|
                        0 <= k < self.pend().len() ==> !(#[trigger] self.pend()[k])
                    &&& self.log() == rt0.log() + flush_delta(rt0, rt0.n_effects())
                    &&& forall|j: int|
                        0 <= j < rt0.n_effects() && #[trigger] rt0.pend()[j] && rt0.ealive()[j]
                            ==> (forall|s: Src|
                            #[trigger] self.edeps()[j].contains(s) <==> rt0.effect_reads(
                                j,
                            ).contains(s))
                    &&& forall|j: int|
                        0 <= j < rt0.n_effects() && !(rt0.pend()[j] && rt0.ealive()[j])
                            ==> #[trigger] self.edeps()[j] == rt0.edeps()[j]
                }))),
            decreases MAX_FLUSH_PASSES - passes,
        {
            let any = self.any_pending();
            if !any {
                proof {
                    if no_writer_pending(rt0) && passes == 0 {
                        lemma_flush_delta_all_skipped(rt0, rt0.n_effects());
                        assert(rt0.log() + flush_delta(rt0, rt0.n_effects()) =~= rt0.log());
                    }
                    if no_writer_pending(rt0) {
                        assert(self.cvals() == rt0.cvals());
                        assert(self.log() == rt0.log() + flush_delta(rt0, rt0.n_effects()));
                    }
                    if exists|e: int| spec_cycle(rt0, e) {
                        let e = choose|e: int| spec_cycle(rt0, e);
                        assert(self.pend()[e]);
                        assert(false);
                    }
                }
                return Ok(());
            }
            let ghost prev = *self;
            self.flush_pass();
            proof {
                assert(rt0.log() =~= self.log().subrange(0, rt0.log().len() as int));
                assert forall|i2: int|
                    rt0.log().len() <= i2 < self.log().len() implies 0 <= (#[trigger] self.log()[i2]).effect
                    < rt0.n_effects() && rt0.ealive()[self.log()[i2].effect as int] by {
                    if prev.log().len() <= i2 {
                        assert(0 <= self.log()[i2].effect < prev.n_effects());
                        assert(prev.ealive()[self.log()[i2].effect as int]);
                    } else {
                        assert(prev.log()[i2] == self.log().subrange(
                            0,
                            prev.log().len() as int,
                        )[i2]);
                        assert(self.log()[i2] == prev.log()[i2]);
                        assert(0 <= prev.log()[i2].effect < rt0.n_effects());
                        assert(rt0.ealive()[prev.log()[i2].effect as int]);
                    }
                }
                assert forall|e: int| spec_cycle(rt0, e) implies #[trigger] self.pend()[e] by {
                    assert(cyc_shape(rt0, e));
                    assert(cyc_shape(prev, e));
                    assert(prev.pend()[e]);
                }
                assert forall|j: int|
                    0 <= j < rt0.n_effects() && #[trigger] rt0.pend()[j] && rt0.ealive()[j] implies (
                exists|i2: int|
                    rt0.log().len() <= i2 < self.log().len() && (#[trigger] self.log()[i2]).effect
                        == j) by {
                    if passes == 0 {
                        assert(prev.pend()[j] && prev.ealive()[j]);
                    } else {
                        let i2 = choose|i2: int|
                            rt0.log().len() <= i2 < prev.log().len() && (#[trigger] prev.log()[i2]).effect
                                == j;
                        assert(prev.log()[i2] == self.log().subrange(
                            0,
                            prev.log().len() as int,
                        )[i2]);
                        assert(self.log()[i2] == prev.log()[i2]);
                    }
                }
            }
            passes += 1;
        }
        Err(RtError::CyclicUpdateError)
    }

    /// Opens a batch: writes keep being coalesced into the pending set,
    /// and the matching `end_batch` of the outermost batch performs one
    /// flush for all of them.
    pub fn begin_batch(&mut self)
        requires
            old(self).wf(),
            old(self).depth() < usize::MAX as nat,
        ensures
            final(self).wf(),
            final(self).depth() == old(self).depth() + 1,
            cells_unchanged(*old(self), *final(self)),
            deriveds_unchanged(*old(self), *final(self)),
            effects_unchanged(*old(self), *final(self)),
            final(self).pend() == old(self).pend(),
            final(self).log() == old(self).log(),
    {
        self.batch_depth = self.batch_depth + 1;
        proof {
            lemma_wf_like(*old(self), *self);
        }
    }

    /// Closes the innermost batch.  Closing the outermost batch flushes
    /// once, so every write issued inside the batch is observed together
    /// and each affected effect runs at most once per pass.
    pub fn end_batch(&mut self) -> (r: Result<(), RtError>)
        requires
            old(self).wf(),
            old(self).depth() >= 1,
        ensures
            final(self).depth() == old(self).depth() - 1,
            old(self).depth() > 1 ==> r == Ok::<(), RtError>(()) && final(self).wf()
                && cells_unchanged(*old(self), *final(self)) && deriveds_unchanged(
                *old(self),
                *final(self),
            ) && effects_unchanged(*old(self), *final(self)) && final(self).pend() == old(self).pend() && final(self).log() == old(self).log(),
            old(self).depth() == 1 ==> flush_spec(*old(self), *final(self), r),
    {
        self.batch_depth = self.batch_depth - 1;
        proof {
            lemma_wf_like(*old(self), *self);
        }
        if self.batch_depth == 0 {
            let ghost mid = *self;
            let r = self.flush();
            proof {
                lemma_flush_spec_same_pre(mid, *old(self), *self, r);
            }
            r
        } else {
            Ok(())
        }
    }

    /// Disposes cell `c`: later reads and writes of it fail with
    /// `UseAfterDispose`.  Computations that still name the cell keep
    /// seeing its last value.  Disposing twice also reports
    /// `UseAfterDispose`.
    pub fn dispose_cell(&mut self, c: usize) -> (r: Result<(), RtError>)
        requires
            old(self).wf(),
        ensures
            final(self).wf(),
            c < old(self).n_cells() && old(self).calive()[c as int] ==> ({
                &&& r == Ok::<(), RtError>(())
                &&& final(self).calive() == old(self).calive().update(c as int, false)
                &&& final(self).cvals() == old(self).cvals()
                &&& deriveds_unchanged(*old(self), *final(self))
                &&& effects_unchanged(*old(self), *final(self))
                &&& final(self).pend() == old(self).pend()
                &&& final(self).log() == old(self).log()
                &&& final(self).depth() == old(self).depth()
            }),
            !(c < old(self).n_cells() && old(self).calive()[c as int]) ==> r == Err::<(), RtError>(
                RtError::UseAfterDispose,
            ) && *final(self) == *old(self),
    {
        if c < self.c_value.len() && self.c_alive[c] {
            self.c_alive[c] = false;
            proof {
                lemma_wf_like(*old(self), *self);
            }
            Ok(())
        } else {
            Err(RtError::UseAfterDispose)
        }
    }

    /// Disposes derived computation `d`: later reads of it fail with
    /// `UseAfterDispose`.  Disposing twice also reports
    /// `UseAfterDispose`.
    pub fn dispose_derived(&mut self, d: usize) -> (r: Result<(), RtError>)
        requires
            old(self).wf(),
        ensures
            final(self).wf(),
            d < old(self).n_deriveds() && old(self).dalive()[d as int] ==> ({
                &&& r == Ok::<(), RtError>(())
                &&& final(self).dalive() == old(self).dalive().update(d as int, false)
                &&& final(self).dexprs() == old(self).dexprs()
                &&& final(self).dcached() == old(self).dcached()
                &&& final(self).ddirty() == old(self).ddirty()
                &&& final(self).ddeps() == old(self).ddeps()
                &&& cells_unchanged(*old(self), *final(self))
                &&& effects_unchanged(*old(self), *final(self))
                &&& final(self).pend() == old(self).pend()
                &&& final(self).log() == old(self).log()
                &&& final(self).depth() == old(self).depth()
            }),
            !(d < old(self).n_deriveds() && old(self).dalive()[d as int]) ==> r == Err::<
                (),
                RtError,
            >(RtError::UseAfterDispose) && *final(self) == *old(self),
    {
        if d < self.d_expr.len() && self.d_alive[d] {
            self.d_alive[d] = false;
            proof {
                lemma_wf_like(*old(self), *self);
            }
            Ok(())
        } else {
            Err(RtError::UseAfterDispose)
        }
    }

    /// Disposes effect `e`: it is unscheduled at once and never runs
    /// again; a pending run scheduled earlier is dropped silently at
    /// flush time.  Disposing twice also reports `UseAfterDispose`.
    pub fn dispose_effect(&mut self, e: usize) -> (r: Result<(), RtError>)
        requires
            old(self).wf(),
        ensures
            final(self).wf(),
            e < old(self).n_effects() && old(self).ealive()[e as int] ==> ({
                &&& r == Ok::<(), RtError>(())
                &&& final(self).ealive() == old(self).ealive().update(e as int, false)
                &&& final(self).pend() == old(self).pend().update(e as int, false)
                &&& final(self).eexprs() == old(self).eexprs()
                &&& final(self).etargets() == old(self).etargets()
                &&& final(self).edeps() == old(self).edeps()
                &&& cells_unchanged(*old(self), *final(self))
                &&& deriveds_unchanged(*old(self), *final(self))
                &&& final(self).log() == old(self).log()
                &&& final(self).depth() == old(self).depth()
            }),
            !(e < old(self).n_effects() && old(self).ealive()[e as int]) ==> r == Err::<
                (),
                RtError,
            >(RtError::UseAfterDispose) && *final(self) == *old(self),
    {
        if e < self.e_expr.len() && self.e_alive[e] {
            self.e_alive[e] = false;
            self.pending[e] = false;
            proof {
                lemma_wf_like(*old(self), *self);
            }
            Ok(())
        } else {
            Err(RtError::UseAfterDispose)
        }
    }
}

/// Well-formedness carries over to a state with the same cells, derived
/// data, effect expressions and targets, and agreeing lengths: liveness
/// flags, recorded effect dependencies, the pending set, the log and the
/// batch depth do not enter the invariant.
proof fn lemma_wf_like(pre: Runtime, post: Runtime)
    requires
        pre.wf(),
        post.cvals() == pre.cvals(),
        post.calive().len() == post.cvals().len(),
        post.dexprs() == pre.dexprs(),
        post.dcached() == pre.dcached(),
        post.ddirty() == pre.ddirty(),
        post.ddeps() == pre.ddeps(),
        post.dalive().len() == post.dexprs().len(),
        post.eexprs() == pre.eexprs(),
        post.etargets() == pre.etargets(),
        post.edeps().len() == post.eexprs().len(),
        post.ealive().len() == post.eexprs().len(),
        post.pend().len() == post.eexprs().len(),
    ensures
        post.wf(),
{
    assert forall|d: int|
        0 <= d < post.n_deriveds() implies wf_expr(
        #[trigger] post.dexprs()[d],
        post.n_cells() as nat,
        d as nat,
    ) by {
        assert(wf_expr(pre.dexprs()[d], pre.n_cells() as nat, d as nat));
    }
    assert forall|e: int|
        0 <= e < post.n_effects() implies wf_expr(
        #[trigger] post.eexprs()[e],
        post.n_cells() as nat,
        post.n_deriveds() as nat,
    ) by {
        assert(wf_expr(pre.eexprs()[e], pre.n_cells() as nat, pre.n_deriveds() as nat));
    }
    assert forall|e: int|
        0 <= e < post.n_effects() implies (match #[trigger] post.etargets()[e] {
        Option::Some(t) => t < post.n_cells(),
        Option::None => true,
    }) by {
        assert(match pre.etargets()[e] {
            Option::Some(t) => t < pre.n_cells(),
            Option::None => true,
        });
    }
    assert forall|d: int|
        0 <= d < post.n_deriveds() && !post.ddirty()[d] implies #[trigger] post.derived_clean_at(
        d,
    ) by {
        assert(pre.derived_clean_at(d));
        assert forall|s: Src|
            #[trigger] post.ddeps()[d].contains(s) <==> reads_e(
                post.cvals(),
                post.dexprs(),
                d as nat,
                post.dexprs()[d],
            ).contains(s) by {
            assert(pre.ddeps()[d].contains(s) <==> reads_e(
                pre.cvals(),
                pre.dexprs(),
                d as nat,
                pre.dexprs()[d],
            ).contains(s));
        }
        assert(post.dval(d) == pre.dval(d));
    }
}

/// The delta of a settling flush depends only on the pending set, the
/// liveness flags, the cell values and the expressions.
proof fn lemma_flush_delta_same(rt1: Runtime, rt2: Runtime, i: int)
    requires
        rt2.pend() == rt1.pend(),
        rt2.ealive() == rt1.ealive(),
        rt2.cvals() == rt1.cvals(),
        rt2.dexprs() == rt1.dexprs(),
        rt2.eexprs() == rt1.eexprs(),
    ensures
        flush_delta(rt2, i) == flush_delta(rt1, i),
    decreases i,
{
    if i > 0 {
        lemma_flush_delta_same(rt1, rt2, i - 1);
    }
}

/// The guarantees of a flush carry over to any description of the
/// starting state with the same components.
proof fn lemma_flush_spec_same_pre(p1: Runtime, p2: Runtime, post: Runtime, r: Result<
    (),
    RtError,
>)
    requires
        flush_spec(p1, post, r),
        p2.cvals() == p1.cvals(),
        p2.calive() == p1.calive(),
        p2.dexprs() == p1.dexprs(),
        p2.dcached() == p1.dcached(),
        p2.ddirty() == p1.ddirty(),
        p2.ddeps() == p1.ddeps(),
        p2.dalive() == p1.dalive(),
        p2.eexprs() == p1.eexprs(),
        p2.etargets() == p1.etargets(),
        p2.edeps() == p1.edeps(),
        p2.ealive() == p1.ealive(),
        p2.pend() == p1.pend(),
        p2.log() == p1.log(),
    ensures
        flush_spec(p2, post, r),
{
    lemma_flush_delta_same(p1, p2, p1.n_effects());
    if no_writer_pending(p2) {
        assert forall|k: int|
            0 <= k < p1.n_effects() && p1.pend()[k] && p1.ealive()[k] implies #[trigger] p1.etargets()[k]
            is None by {
            assert(p2.etargets()[k] is None);
        }
        assert(no_writer_pending(p1));
        assert forall|e: int|
            0 <= e < p2.n_effects() && #[trigger] p2.pend()[e] && p2.ealive()[e] implies (forall|
            s: Src,
        |
            #[trigger] post.edeps()[e].contains(s) <==> p2.effect_reads(e).contains(s)) by {
            assert(p1.pend()[e] && p1.ealive()[e]);
            assert(p2.effect_reads(e) == p1.effect_reads(e));
        }
        assert forall|e: int|
            0 <= e < p2.n_effects() && !(p2.pend()[e] && p2.ealive()[e]) implies #[trigger] post.edeps()[e]
            == p2.edeps()[e] by {
            assert(!(p1.pend()[e] && p1.ealive()[e]));
        }
    }
    if exists|e: int| spec_cycle(p2, e) {
        let e = choose|e: int| spec_cycle(p2, e);
        assert(spec_cycle(p1, e));
    }
    assert forall|j: int|
        0 <= j < p2.n_effects() && #[trigger] p2.pend()[j] && p2.ealive()[j] implies (exists|i: int|
        p2.log().len() <= i < post.log().len() && (#[trigger] post.log()[i]).effect == j) by {
        assert(p1.pend()[j]);
        assert(p1.ealive()[j]);
    }
}

/// A state with nothing scheduled contributes an empty delta: a flush
/// from it appends nothing.
proof fn lemma_flush_delta_all_skipped(rt: Runtime, i: int)
    requires
        forall|k: int| 0 <= k < i ==> !(#[trigger] rt.pend()[k]),
    ensures
        flush_delta(rt, i) == Seq::<RunRecord>::empty(),
    decreases i,
{
    if i > 0 {
        lemma_flush_delta_all_skipped(rt, i - 1);
    }
}

} // verus!
