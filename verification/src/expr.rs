//! The computation language of the reactive graph.
//!
//! A derived computation or an effect does not carry an arbitrary closure:
//! its body is an `Expr`, a small expression over signal cells and
//! previously created derived computations.  Evaluating an `Expr` both
//! produces a value and reports exactly which sources were read, which is
//! what makes dynamic dependency tracking (conditional reads) precise.

use vstd::prelude::*;

verus! {

/// A source that a computation can read during one run: a signal cell or a
/// derived computation, named by its identifier.
#[derive(Clone, Copy, PartialEq, Eq, Structural, Debug)]
pub enum Src {
    Cell(usize),
    Derived(usize),
}

/// The body of a derived computation or an effect.
///
/// Arithmetic wraps on overflow (two's-complement, as the corresponding
/// `i64` wrapping operations do).  `IfNonZero` gives conditional reads:
/// only the taken branch is evaluated, so only its sources are read.
#[derive(Debug)]
pub enum Expr {
    /// A constant value.
    Lit(i64),
    /// The current value of a signal cell.
    ReadCell(usize),
    /// The current value of a derived computation created earlier.
    ReadDerived(usize),
    /// Wrapping sum of the two operands.
    Add(Box<Expr>, Box<Expr>),
    /// Wrapping product of the two operands.
    Mul(Box<Expr>, Box<Expr>),
    /// Evaluates the first operand; if it is nonzero, the value is the
    /// second operand's, otherwise the third's.
    IfNonZero(Box<Expr>, Box<Expr>, Box<Expr>),
}

/// Well-formedness of an expression: every cell it names exists already,
/// and every derived computation it names was created earlier than `rank`.
/// A derived computation of rank `d` may only read derived computations
/// with rank below `d`, so the derived layer is acyclic by construction.
pub open spec fn wf_expr(e: Expr, ncells: nat, rank: nat) -> bool
    decreases e,
{
    match e {
        Expr::Lit(_) => true,
        Expr::ReadCell(c) => c < ncells,
        Expr::ReadDerived(d) => d < rank,
        Expr::Add(l, r) => wf_expr(*l, ncells, rank) && wf_expr(*r, ncells, rank),
        Expr::Mul(l, r) => wf_expr(*l, ncells, rank) && wf_expr(*r, ncells, rank),
        Expr::IfNonZero(c, t, f) => wf_expr(*c, ncells, rank) && wf_expr(*t, ncells, rank)
            && wf_expr(*f, ncells, rank),
    }
}

/// The value of an expression over the current cell values `cells` and the
/// expressions `ds` of all derived computations.  Reading a derived
/// computation means evaluating its own expression at its own rank, so a
/// derived value is always a pure function of the cell values.
pub open spec fn eval_e(cells: Seq<i64>, ds: Seq<Expr>, rank: nat, e: Expr) -> i64
    decreases rank, e,
{
    match e {
        Expr::Lit(v) => v,
        Expr::ReadCell(c) => if c < cells.len() {
            cells[c as int]
        } else {
            0
        },
        Expr::ReadDerived(d) => if d < rank && d < ds.len() {
            eval_e(cells, ds, d as nat, ds[d as int])
        } else {
            0
        },
        Expr::Add(l, r) => vstd::wrapping::i64_specs::wrapping_add(
            eval_e(cells, ds, rank, *l),
            eval_e(cells, ds, rank, *r),
        ),
        Expr::Mul(l, r) => vstd::wrapping::i64_specs::wrapping_mul(
            eval_e(cells, ds, rank, *l),
            eval_e(cells, ds, rank, *r),
        ),
        Expr::IfNonZero(c, t, f) => if eval_e(cells, ds, rank, *c) != 0 {
            eval_e(cells, ds, rank, *t)
        } else {
            eval_e(cells, ds, rank, *f)
        },
    }
}

/// The set of sources an evaluation of `e` reads, under the current cell
/// values.  A conditional contributes its condition's reads and only the
/// taken branch's reads.  Reading a derived computation subscribes to that
/// computation itself, not to the cells underneath it (the innermost
/// tracking scope receives the subscription).
pub open spec fn reads_e(cells: Seq<i64>, ds: Seq<Expr>, rank: nat, e: Expr) -> Set<Src>
    decreases rank, e,
{
    match e {
        Expr::Lit(_) => Set::empty(),
        Expr::ReadCell(c) => Set::empty().insert(Src::Cell(c)),
        Expr::ReadDerived(d) => Set::empty().insert(Src::Derived(d)),
        Expr::Add(l, r) => reads_e(cells, ds, rank, *l).union(reads_e(cells, ds, rank, *r)),
        Expr::Mul(l, r) => reads_e(cells, ds, rank, *l).union(reads_e(cells, ds, rank, *r)),
        Expr::IfNonZero(c, t, f) => reads_e(cells, ds, rank, *c).union(
            if eval_e(cells, ds, rank, *c) != 0 {
                reads_e(cells, ds, rank, *t)
            } else {
                reads_e(cells, ds, rank, *f)
            },
        ),
    }
}

/// Whether every evaluation of `e`, whatever the cell values, reads cell
/// `c`.  A conditional surely reads `c` only if the condition does, or
/// both branches do.
pub open spec fn surely_reads(e: Expr, c: usize) -> bool
    decreases e,
{
    match e {
        Expr::Lit(_) => false,
        Expr::ReadCell(cc) => cc == c,
        Expr::ReadDerived(_) => false,
        Expr::Add(l, r) => surely_reads(*l, c) || surely_reads(*r, c),
        Expr::Mul(l, r) => surely_reads(*l, c) || surely_reads(*r, c),
        Expr::IfNonZero(cd, t, f) => surely_reads(*cd, c) || (surely_reads(*t, c)
            && surely_reads(*f, c)),
    }
}

/// A recorded dependency `s` is struck by a write to cell `c` when it is
/// `c` itself, or an invalidated (dirty) derived computation.
pub open spec fn src_hits(s: Src, dirty: Seq<bool>, c: usize) -> bool {
    match s {
        Src::Cell(cc) => cc == c,
        Src::Derived(j) => j < dirty.len() && dirty[j as int],
    }
}

/// Whether a recorded dependency list is struck by a write to cell `c`:
/// some entry is `c` itself or a dirty derived computation.
pub open spec fn hit_seq(deps: Seq<Src>, dirty: Seq<bool>, c: usize) -> bool {
    exists|k: int| 0 <= k < deps.len() && src_hits(deps[k], dirty, c)
}

/// A dependency list is bounded by rank `d` when every derived
/// computation it names has rank below `d`.
pub open spec fn deps_bounded(deps: Seq<Src>, d: int) -> bool {
    forall|k: int| 0 <= k < deps.len() ==> (match #[trigger] deps[k] {
        Src::Cell(_) => true,
        Src::Derived(j) => j < d,
    })
}

/// Checks well-formedness of an expression against the number of existing
/// cells and the rank below which derived computations may be read.
pub fn check_expr(e: &Expr, ncells: usize, rank: usize) -> (b: bool)
    ensures
        b == wf_expr(*e, ncells as nat, rank as nat),
    decreases *e,
{
    match e {
        Expr::Lit(_) => true,
        Expr::ReadCell(c) => *c < ncells,
        Expr::ReadDerived(d) => *d < rank,
        Expr::Add(l, r) => check_expr(&**l, ncells, rank) && check_expr(&**r, ncells, rank),
        Expr::Mul(l, r) => check_expr(&**l, ncells, rank) && check_expr(&**r, ncells, rank),
        Expr::IfNonZero(c, t, f) => check_expr(&**c, ncells, rank) && check_expr(
            &**t,
            ncells,
            rank,
        ) && check_expr(&**f, ncells, rank),
    }
}

/// Well-formedness is monotone: an expression stays well-formed when more
/// cells or more derived computations exist.
pub proof fn lemma_wf_expr_mono(e: Expr, nc1: nat, r1: nat, nc2: nat, r2: nat)
    requires
        wf_expr(e, nc1, r1),
        nc1 <= nc2,
        r1 <= r2,
    ensures
        wf_expr(e, nc2, r2),
    decreases e,
{
    match e {
        Expr::Lit(_) => {},
        Expr::ReadCell(_) => {},
        Expr::ReadDerived(_) => {},
        Expr::Add(l, r) => {
            lemma_wf_expr_mono(*l, nc1, r1, nc2, r2);
            lemma_wf_expr_mono(*r, nc1, r1, nc2, r2);
        },
        Expr::Mul(l, r) => {
            lemma_wf_expr_mono(*l, nc1, r1, nc2, r2);
            lemma_wf_expr_mono(*r, nc1, r1, nc2, r2);
        },
        Expr::IfNonZero(c, t, f) => {
            lemma_wf_expr_mono(*c, nc1, r1, nc2, r2);
            lemma_wf_expr_mono(*t, nc1, r1, nc2, r2);
            lemma_wf_expr_mono(*f, nc1, r1, nc2, r2);
        },
    }
}

/// Whether a source is within range: a cell below `ncells` or a derived
/// computation below `rank`.
pub open spec fn src_in_range(s: Src, ncells: nat, rank: nat) -> bool {
    match s {
        Src::Cell(cc) => cc < ncells,
        Src::Derived(j) => j < rank,
    }
}

/// Every source a well-formed expression reads is in range: cells below
/// `ncells`, derived computations below `rank`.
pub proof fn lemma_reads_bounded(cells: Seq<i64>, ds: Seq<Expr>, rank: nat, e: Expr, ncells: nat)
    requires
        wf_expr(e, ncells, rank),
    ensures
        forall|s: Src| #[trigger]
            reads_e(cells, ds, rank, e).contains(s) ==> src_in_range(s, ncells, rank),
    decreases e,
{
    match e {
        Expr::Lit(_) => {
            assert(reads_e(cells, ds, rank, e) =~= Set::empty());
        },
        Expr::ReadCell(cc) => {
            assert forall|s: Src| #[trigger]
                reads_e(cells, ds, rank, e).contains(s) implies src_in_range(
                s,
                ncells,
                rank,
            ) by {
                assert(s == Src::Cell(cc));
            }
        },
        Expr::ReadDerived(d) => {
            assert forall|s: Src| #[trigger]
                reads_e(cells, ds, rank, e).contains(s) implies src_in_range(
                s,
                ncells,
                rank,
            ) by {
                assert(s == Src::Derived(d));
            }
        },
        Expr::Add(l, r) => {
            lemma_reads_bounded(cells, ds, rank, *l, ncells);
            lemma_reads_bounded(cells, ds, rank, *r, ncells);
            assert forall|s: Src| #[trigger]
                reads_e(cells, ds, rank, e).contains(s) implies src_in_range(
                s,
                ncells,
                rank,
            ) by {
                assert(reads_e(cells, ds, rank, *l).contains(s) || reads_e(
                    cells,
                    ds,
                    rank,
                    *r,
                ).contains(s));
            }
        },
        Expr::Mul(l, r) => {
            lemma_reads_bounded(cells, ds, rank, *l, ncells);
            lemma_reads_bounded(cells, ds, rank, *r, ncells);
            assert forall|s: Src| #[trigger]
                reads_e(cells, ds, rank, e).contains(s) implies src_in_range(
                s,
                ncells,
                rank,
            ) by {
                assert(reads_e(cells, ds, rank, *l).contains(s) || reads_e(
                    cells,
                    ds,
                    rank,
                    *r,
                ).contains(s));
            }
        },
        Expr::IfNonZero(c, t, f) => {
            lemma_reads_bounded(cells, ds, rank, *c, ncells);
            lemma_reads_bounded(cells, ds, rank, *t, ncells);
            lemma_reads_bounded(cells, ds, rank, *f, ncells);
            assert forall|s: Src| #[trigger]
                reads_e(cells, ds, rank, e).contains(s) implies src_in_range(
                s,
                ncells,
                rank,
            ) by {
                assert(reads_e(cells, ds, rank, *c).contains(s) || reads_e(
                    cells,
                    ds,
                    rank,
                    *t,
                ).contains(s) || reads_e(cells, ds, rank, *f).contains(s));
            }
        },
    }
}

/// An expression that surely reads cell `c` reads it under every cell
/// valuation.
pub proof fn lemma_surely_reads(cells: Seq<i64>, ds: Seq<Expr>, rank: nat, e: Expr, c: usize)
    requires
        surely_reads(e, c),
    ensures
        reads_e(cells, ds, rank, e).contains(Src::Cell(c)),
    decreases e,
{
    match e {
        Expr::Lit(_) => {},
        Expr::ReadCell(_) => {},
        Expr::ReadDerived(_) => {},
        Expr::Add(l, r) => {
            if surely_reads(*l, c) {
                lemma_surely_reads(cells, ds, rank, *l, c);
            } else {
                lemma_surely_reads(cells, ds, rank, *r, c);
            }
        },
        Expr::Mul(l, r) => {
            if surely_reads(*l, c) {
                lemma_surely_reads(cells, ds, rank, *l, c);
            } else {
                lemma_surely_reads(cells, ds, rank, *r, c);
            }
        },
        Expr::IfNonZero(cd, t, f) => {
            if surely_reads(*cd, c) {
                lemma_surely_reads(cells, ds, rank, *cd, c);
            } else if eval_e(cells, ds, rank, *cd) != 0 {
                lemma_surely_reads(cells, ds, rank, *t, c);
            } else {
                lemma_surely_reads(cells, ds, rank, *f, c);
            }
        },
    }
}

/// Membership in a concatenation is membership in either part.
pub proof fn lemma_concat_contains<A>(a: Seq<A>, b: Seq<A>, x: A)
    ensures
        (a + b).contains(x) <==> a.contains(x) || b.contains(x),
{
    if a.contains(x) {
        let i = choose|i: int| 0 <= i < a.len() && a[i] == x;
        assert((a + b)[i] == x);
    }
    if b.contains(x) {
        let i = choose|i: int| 0 <= i < b.len() && b[i] == x;
        assert((a + b)[a.len() + i] == x);
    }
    if (a + b).contains(x) {
        let i = choose|i: int| 0 <= i < (a + b).len() && (a + b)[i] == x;
        if i < a.len() {
            assert(a[i] == x);
        } else {
            assert(b[i - a.len()] == x);
        }
    }
}

/// Striking is monotone in the dirty flags: marking more derived
/// computations dirty can only strike more dependency lists.
pub proof fn lemma_hit_mono(deps: Seq<Src>, dirty1: Seq<bool>, dirty2: Seq<bool>, c: usize)
    requires
        dirty1.len() == dirty2.len(),
        forall|j: int| 0 <= j < dirty1.len() && dirty1[j] ==> dirty2[j],
        hit_seq(deps, dirty1, c),
    ensures
        hit_seq(deps, dirty2, c),
{
    let k = choose|k: int| 0 <= k < deps.len() && src_hits(deps[k], dirty1, c);
    assert(src_hits(deps[k], dirty2, c));
}

/// Evaluation and the read set are stable when cells or derived
/// computations are appended: a well-formed expression never looks at the
/// new entries.
pub proof fn lemma_eval_grow(
    cells1: Seq<i64>,
    cells2: Seq<i64>,
    ds1: Seq<Expr>,
    ds2: Seq<Expr>,
    rank: nat,
    e: Expr,
)
    requires
        cells1.len() <= cells2.len(),
        forall|i: int| 0 <= i < cells1.len() ==> cells2[i] == cells1[i],
        ds1.len() <= ds2.len(),
        forall|j: int| 0 <= j < ds1.len() ==> ds2[j] == ds1[j],
        forall|j: int| 0 <= j < ds1.len() ==> wf_expr(ds1[j], cells1.len(), j as nat),
        rank <= ds1.len(),
        wf_expr(e, cells1.len(), rank),
    ensures
        eval_e(cells2, ds2, rank, e) == eval_e(cells1, ds1, rank, e),
        reads_e(cells2, ds2, rank, e) == reads_e(cells1, ds1, rank, e),
    decreases rank, e,
{
    match e {
        Expr::Lit(_) => {},
        Expr::ReadCell(_) => {},
        Expr::ReadDerived(d) => {
            lemma_eval_grow(cells1, cells2, ds1, ds2, d as nat, ds1[d as int]);
        },
        Expr::Add(l, r) => {
            lemma_eval_grow(cells1, cells2, ds1, ds2, rank, *l);
            lemma_eval_grow(cells1, cells2, ds1, ds2, rank, *r);
        },
        Expr::Mul(l, r) => {
            lemma_eval_grow(cells1, cells2, ds1, ds2, rank, *l);
            lemma_eval_grow(cells1, cells2, ds1, ds2, rank, *r);
        },
        Expr::IfNonZero(c, t, f) => {
            lemma_eval_grow(cells1, cells2, ds1, ds2, rank, *c);
            lemma_eval_grow(cells1, cells2, ds1, ds2, rank, *t);
            lemma_eval_grow(cells1, cells2, ds1, ds2, rank, *f);
        },
    }
}

/// Whether a source is left calm by a write to cell `c` once the dirty
/// marks `dirty2` have been propagated: it is neither `c` itself nor a
/// dirty derived computation.
pub open spec fn src_calm(s: Src, dirty2: Seq<bool>, c: usize) -> bool {
    match s {
        Src::Cell(cc) => cc != c,
        Src::Derived(j) => j < dirty2.len() && !dirty2[j as int],
    }
}

/// The hypotheses of the framing argument after a write to cell `c`:
/// `ddeps` and `dirty2` describe the derived computations after the dirty
/// marks have been propagated; every clean one has an accurate dependency
/// list that is not struck by the write.
pub open spec fn clean_frame_ok(
    cells: Seq<i64>,
    ds: Seq<Expr>,
    ddeps: Seq<Seq<Src>>,
    dirty2: Seq<bool>,
    c: usize,
) -> bool {
    &&& ddeps.len() == ds.len()
    &&& dirty2.len() == ds.len()
    &&& forall|d: int|
        0 <= d < ds.len() ==> wf_expr(#[trigger] ds[d], cells.len(), d as nat)
    &&& forall|d: int|
        0 <= d < ds.len() && !dirty2[d] ==> (forall|s: Src|
            #[trigger] ddeps[d].contains(s) <==> reads_e(cells, ds, d as nat, ds[d]).contains(s))
    &&& forall|d: int|
        0 <= d < ds.len() && !dirty2[d] ==> !hit_seq(#[trigger] ddeps[d], dirty2, c)
}

/// The framing lemma behind eager invalidation: after cell `c` is
/// overwritten, any expression whose reads avoid both `c` and every dirty
/// derived computation keeps its value and its read set.
pub proof fn lemma_eval_frame(
    cells: Seq<i64>,
    cells2: Seq<i64>,
    ds: Seq<Expr>,
    ddeps: Seq<Seq<Src>>,
    dirty2: Seq<bool>,
    c: usize,
    rank: nat,
    e: Expr,
)
    requires
        clean_frame_ok(cells, ds, ddeps, dirty2, c),
        cells2.len() == cells.len(),
        c < cells.len(),
        forall|i: int| 0 <= i < cells.len() && i != c ==> cells2[i] == cells[i],
        rank <= ds.len(),
        wf_expr(e, cells.len(), rank),
        forall|s: Src| #[trigger]
            reads_e(cells, ds, rank, e).contains(s) ==> src_calm(s, dirty2, c),
    ensures
        eval_e(cells2, ds, rank, e) == eval_e(cells, ds, rank, e),
        reads_e(cells2, ds, rank, e) == reads_e(cells, ds, rank, e),
    decreases rank, e,
{
    match e {
        Expr::Lit(_) => {},
        Expr::ReadCell(cc) => {
            assert(reads_e(cells, ds, rank, e).contains(Src::Cell(cc)));
        },
        Expr::ReadDerived(d) => {
            assert(reads_e(cells, ds, rank, e).contains(Src::Derived(d)));
            assert(!dirty2[d as int]);
            let sub = ds[d as int];
            lemma_reads_bounded(cells, ds, d as nat, sub, cells.len());
            // A clean derived computation's recorded list is accurate and
            // not struck, so its own reads are calm as well.
            assert forall|s: Src| #[trigger]
                reads_e(cells, ds, d as nat, sub).contains(s) implies src_calm(
                s,
                dirty2,
                c,
            ) by {
                assert(ddeps[d as int].contains(s));
                let k = choose|k: int| 0 <= k < ddeps[d as int].len() && ddeps[d as int][k] == s;
                assert(src_in_range(s, cells.len(), d as nat));
                if !src_calm(s, dirty2, c) {
                    assert(src_hits(ddeps[d as int][k], dirty2, c));
                    assert(hit_seq(ddeps[d as int], dirty2, c));
                }
            }
            lemma_eval_frame(cells, cells2, ds, ddeps, dirty2, c, d as nat, sub);
        },
        Expr::Add(l, r) => {
            assert forall|s: Src| #[trigger]
                reads_e(cells, ds, rank, *l).contains(s) implies src_calm(s, dirty2, c) by {
                assert(reads_e(cells, ds, rank, e).contains(s));
            }
            assert forall|s: Src| #[trigger]
                reads_e(cells, ds, rank, *r).contains(s) implies src_calm(s, dirty2, c) by {
                assert(reads_e(cells, ds, rank, e).contains(s));
            }
            lemma_eval_frame(cells, cells2, ds, ddeps, dirty2, c, rank, *l);
            lemma_eval_frame(cells, cells2, ds, ddeps, dirty2, c, rank, *r);
        },
        Expr::Mul(l, r) => {
            assert forall|s: Src| #[trigger]
                reads_e(cells, ds, rank, *l).contains(s) implies src_calm(s, dirty2, c) by {
                assert(reads_e(cells, ds, rank, e).contains(s));
            }
            assert forall|s: Src| #[trigger]
                reads_e(cells, ds, rank, *r).contains(s) implies src_calm(s, dirty2, c) by {
                assert(reads_e(cells, ds, rank, e).contains(s));
            }
            lemma_eval_frame(cells, cells2, ds, ddeps, dirty2, c, rank, *l);
            lemma_eval_frame(cells, cells2, ds, ddeps, dirty2, c, rank, *r);
        },
        Expr::IfNonZero(cd, t, f) => {
            assert forall|s: Src| #[trigger]
                reads_e(cells, ds, rank, *cd).contains(s) implies src_calm(s, dirty2, c) by {
                assert(reads_e(cells, ds, rank, e).contains(s));
            }
            lemma_eval_frame(cells, cells2, ds, ddeps, dirty2, c, rank, *cd);
            if eval_e(cells, ds, rank, *cd) != 0 {
                assert forall|s: Src| #[trigger]
                    reads_e(cells, ds, rank, *t).contains(s) implies src_calm(s, dirty2, c) by {
                    assert(reads_e(cells, ds, rank, e).contains(s));
                }
                lemma_eval_frame(cells, cells2, ds, ddeps, dirty2, c, rank, *t);
            } else {
                assert forall|s: Src| #[trigger]
                    reads_e(cells, ds, rank, *f).contains(s) implies src_calm(s, dirty2, c) by {
                    assert(reads_e(cells, ds, rank, e).contains(s));
                }
                lemma_eval_frame(cells, cells2, ds, ddeps, dirty2, c, rank, *f);
            }
        },
    }
}

} // verus!
