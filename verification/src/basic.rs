//! The generic edit-script engine: element equivalence, per-element edit
//! decisions, and the `DiffOp` operations that `diff` produces.
//!
//! The engine runs in three phases. A dynamic-programming table of
//! longest-common-subsequence lengths is built (see `lcs`), a backtrace over
//! that table yields one `Decision` per consumed element, and a coalescing
//! pass groups equal decisions into runs and merges each adjacent
//! remove-run/insert-run pair into a single `Replace` operation.

use vstd::prelude::*;

use crate::lcs::lcs_len;

verus! {

/// An element type that the diff engine can compare.
///
/// `eqv` is the mathematical equivalence the engine diffs with respect to;
/// `eq_elem` is its executable decision procedure. `eqv_reflexive` is demanded
/// so that a sequence diffed against itself comes out all-equal.
pub trait DiffElemSpec: Sized {
    /// The equivalence the diff is computed with respect to.
    spec fn eqv(&self, other: &Self) -> bool;

    /// Every element is equivalent to itself.
    proof fn eqv_reflexive(&self)
        ensures
            self.eqv(self),
    ;
}

/// An element type the executable engine can compare.
pub trait DiffElem: DiffElemSpec {
    /// Executable comparison, deciding `eqv`.
    fn eq_elem(&self, other: &Self) -> (r: bool)
        ensures
            r == self.eqv(other),
    ;
}

impl DiffElemSpec for u64 {
    open spec fn eqv(&self, other: &Self) -> bool {
        self == other
    }

    proof fn eqv_reflexive(&self) {
    }
}

impl DiffElem for u64 {
    fn eq_elem(&self, other: &Self) -> (r: bool) {
        *self == *other
    }
}

impl DiffElemSpec for char {
    open spec fn eqv(&self, other: &Self) -> bool {
        self == other
    }

    proof fn eqv_reflexive(&self) {
    }
}

impl DiffElem for char {
    fn eq_elem(&self, other: &Self) -> (r: bool) {
        *self == *other
    }
}

impl DiffElemSpec for String {
    open spec fn eqv(&self, other: &Self) -> bool {
        self@ == other@
    }

    proof fn eqv_reflexive(&self) {
    }
}

impl DiffElem for String {
    fn eq_elem(&self, other: &Self) -> (r: bool) {
        self.eq(other)
    }
}

/// At the level of views a character sequence stands for itself.
impl DiffElemSpec for Seq<char> {
    open spec fn eqv(&self, other: &Self) -> bool {
        self == other
    }

    proof fn eqv_reflexive(&self) {
    }
}

/// One step of the raw edit script: keep the current element of both sides,
/// remove the current element of the old side, or insert the current element
/// of the new side.
#[derive(Clone, Copy, Debug, PartialEq, Eq, Structural)]
pub enum Decision {
    Keep,
    Remove,
    Insert,
}

/// A coalesced operation of the final edit script, as index ranges into the
/// two input sequences. Every variant records where it stands on both sides;
/// a `Remove` consumes nothing of the new side and an `Insert` nothing of the
/// old side, but each still carries the position at which it applies.
#[derive(Clone, Copy, Debug, PartialEq, Eq, Structural)]
pub enum DiffOp {
    /// A run present unchanged in both sequences.
    Equal { old_start: usize, new_start: usize, len: usize },
    /// A run of old-side elements absent from the new side at this position.
    Remove { old_start: usize, new_start: usize, len: usize },
    /// A run of new-side elements with no counterpart in the old side.
    Insert { old_start: usize, new_start: usize, len: usize },
    /// A remove-run and an adjacent insert-run merged into one substitution.
    Replace { old_start: usize, old_len: usize, new_start: usize, new_len: usize },
}

/// The mathematical form of a `DiffOp`, over unbounded integers.
pub enum SpecOp {
    Equal { old_start: int, new_start: int, len: int },
    Remove { old_start: int, new_start: int, len: int },
    Insert { old_start: int, new_start: int, len: int },
    Replace { old_start: int, old_len: int, new_start: int, new_len: int },
}

impl View for DiffOp {
    type V = SpecOp;

    open spec fn view(&self) -> SpecOp {
        match *self {
            DiffOp::Equal { old_start, new_start, len } => SpecOp::Equal {
                old_start: old_start as int,
                new_start: new_start as int,
                len: len as int,
            },
            DiffOp::Remove { old_start, new_start, len } => SpecOp::Remove {
                old_start: old_start as int,
                new_start: new_start as int,
                len: len as int,
            },
            DiffOp::Insert { old_start, new_start, len } => SpecOp::Insert {
                old_start: old_start as int,
                new_start: new_start as int,
                len: len as int,
            },
            DiffOp::Replace { old_start, old_len, new_start, new_len } => SpecOp::Replace {
                old_start: old_start as int,
                old_len: old_len as int,
                new_start: new_start as int,
                new_len: new_len as int,
            },
        }
    }
}

/// The views of a sequence of operations.
pub open spec fn ops_view(ops: Seq<DiffOp>) -> Seq<SpecOp> {
    ops.map_values(|o: DiffOp| o@)
}

impl SpecOp {
    /// Index of the first old-side element the operation covers.
    pub open spec fn old_start(self) -> int {
        match self {
            SpecOp::Equal { old_start, .. } => old_start,
            SpecOp::Remove { old_start, .. } => old_start,
            SpecOp::Insert { old_start, .. } => old_start,
            SpecOp::Replace { old_start, .. } => old_start,
        }
    }

    /// Index of the first new-side element the operation covers.
    pub open spec fn new_start(self) -> int {
        match self {
            SpecOp::Equal { new_start, .. } => new_start,
            SpecOp::Remove { new_start, .. } => new_start,
            SpecOp::Insert { new_start, .. } => new_start,
            SpecOp::Replace { new_start, .. } => new_start,
        }
    }

    /// How many old-side elements the operation consumes.
    pub open spec fn old_adv(self) -> int {
        match self {
            SpecOp::Equal { len, .. } => len,
            SpecOp::Remove { len, .. } => len,
            SpecOp::Insert { .. } => 0,
            SpecOp::Replace { old_len, .. } => old_len,
        }
    }

    /// How many new-side elements the operation consumes.
    pub open spec fn new_adv(self) -> int {
        match self {
            SpecOp::Equal { len, .. } => len,
            SpecOp::Remove { .. } => 0,
            SpecOp::Insert { len, .. } => len,
            SpecOp::Replace { new_len, .. } => new_len,
        }
    }

    pub open spec fn is_equal(self) -> bool {
        self is Equal
    }

    pub open spec fn is_remove(self) -> bool {
        self is Remove
    }

    pub open spec fn is_insert(self) -> bool {
        self is Insert
    }

    pub open spec fn is_replace(self) -> bool {
        self is Replace
    }

    /// How many elements the operation changes: zero for `Equal`, both sides
    /// together for `Replace`.
    pub open spec fn weight(self) -> int {
        match self {
            SpecOp::Equal { .. } => 0,
            SpecOp::Remove { len, .. } => len,
            SpecOp::Insert { len, .. } => len,
            SpecOp::Replace { old_len, new_len, .. } => old_len + new_len,
        }
    }

    /// The operation covers at least one element on every side it touches.
    pub open spec fn positive(self) -> bool {
        match self {
            SpecOp::Equal { len, .. } => len > 0,
            SpecOp::Remove { len, .. } => len > 0,
            SpecOp::Insert { len, .. } => len > 0,
            SpecOp::Replace { old_len, new_len, .. } => old_len > 0 && new_len > 0,
        }
    }
}

/// A maximal stretch of identical decisions, with the positions at which it
/// begins on both sides.
pub struct Run {
    pub kind: Decision,
    pub old_start: int,
    pub new_start: int,
    pub len: int,
}

impl Run {
    pub open spec fn old_adv(self) -> int {
        if self.kind is Insert {
            0
        } else {
            self.len
        }
    }

    pub open spec fn new_adv(self) -> int {
        if self.kind is Remove {
            0
        } else {
            self.len
        }
    }

    pub open spec fn old_end(self) -> int {
        self.old_start + self.old_adv()
    }

    pub open spec fn new_end(self) -> int {
        self.new_start + self.new_adv()
    }
}

// ---------------------------------------------------------------------------
// The backtrace: one decision per element, walking the table from the far
// corner back to the origin. Ties between removing and inserting are broken
// in favour of removing; this fixed rule is what makes the output stable.
// ---------------------------------------------------------------------------

/// The decisions for transforming `a.take(i)` into `b.take(j)`, in input
/// order: the edit path that the backtrace over the table reconstructs.
pub open spec fn backtrace_path<T: DiffElemSpec>(a: Seq<T>, b: Seq<T>, i: int, j: int) -> Seq<
    Decision,
>
    decreases i + j,
    when 0 <= i && 0 <= j
{
    if i <= 0 && j <= 0 {
        Seq::empty()
    } else if i > 0 && j > 0 && a[i - 1].eqv(&b[j - 1]) {
        backtrace_path(a, b, i - 1, j - 1).push(Decision::Keep)
    } else if i > 0 && (j <= 0 || lcs_len(a.take(i - 1), b.take(j)) >= lcs_len(
        a.take(i),
        b.take(j - 1),
    )) {
        backtrace_path(a, b, i - 1, j).push(Decision::Remove)
    } else {
        backtrace_path(a, b, i, j - 1).push(Decision::Insert)
    }
}

// ---------------------------------------------------------------------------
// The coalescer, phase one: group consecutive identical decisions into
// maximal runs.
// ---------------------------------------------------------------------------

/// Group consecutive identical decisions into maximal runs, tracking the
/// positions at which each run begins.
pub open spec fn group_runs(d: Seq<Decision>) -> Seq<Run>
    decreases d.len(),
{
    if d.len() == 0 {
        Seq::empty()
    } else {
        let rs = group_runs(d.drop_last());
        let dec = d.last();
        if rs.len() > 0 && rs.last().kind == dec {
            rs.update(
                rs.len() - 1,
                Run {
                    kind: rs.last().kind,
                    old_start: rs.last().old_start,
                    new_start: rs.last().new_start,
                    len: rs.last().len + 1,
                },
            )
        } else {
            let oi = if rs.len() == 0 {
                0
            } else {
                rs.last().old_end()
            };
            let nj = if rs.len() == 0 {
                0
            } else {
                rs.last().new_end()
            };
            rs.push(Run { kind: dec, old_start: oi, new_start: nj, len: 1 })
        }
    }
}

// ---------------------------------------------------------------------------
// The coalescer, phase two: merge each remove-run that is adjacent to an
// insert-run (in either order) into a single Replace operation.
// ---------------------------------------------------------------------------

/// Whether two adjacent runs form a remove/insert pair, in either order.
pub open spec fn run_mergeable(x: Run, y: Run) -> bool {
    (x.kind is Remove && y.kind is Insert) || (x.kind is Insert && y.kind is Remove)
}

/// The substitution that a remove/insert pair of adjacent runs merges into.
/// Whichever side came first, the result exposes the removed old-side range
/// and the inserted new-side range.
pub open spec fn run_merge(x: Run, y: Run) -> SpecOp {
    let rm = if x.kind is Remove {
        x
    } else {
        y
    };
    let ins = if x.kind is Insert {
        x
    } else {
        y
    };
    SpecOp::Replace {
        old_start: rm.old_start,
        old_len: rm.len,
        new_start: ins.new_start,
        new_len: ins.len,
    }
}

/// The operation a lone run stands for.
pub open spec fn run_op(x: Run) -> SpecOp {
    match x.kind {
        Decision::Keep => SpecOp::Equal {
            old_start: x.old_start,
            new_start: x.new_start,
            len: x.len,
        },
        Decision::Remove => SpecOp::Remove {
            old_start: x.old_start,
            new_start: x.new_start,
            len: x.len,
        },
        Decision::Insert => SpecOp::Insert {
            old_start: x.old_start,
            new_start: x.new_start,
            len: x.len,
        },
    }
}

/// Scan the run list left to right, merging each remove/insert pair of
/// adjacent runs into one `Replace`.
pub open spec fn merge_runs(rs: Seq<Run>) -> Seq<SpecOp>
    decreases rs.len(),
{
    if rs.len() == 0 {
        Seq::empty()
    } else if rs.len() >= 2 && run_mergeable(rs[0], rs[1]) {
        seq![run_merge(rs[0], rs[1])] + merge_runs(rs.skip(2))
    } else {
        seq![run_op(rs[0])] + merge_runs(rs.skip(1))
    }
}

/// The whole edit script of `diff`, as a function of the two inputs alone:
/// the backtraced decisions, grouped into runs and coalesced.
pub open spec fn diff_spec<T: DiffElemSpec>(a: Seq<T>, b: Seq<T>) -> Seq<SpecOp> {
    merge_runs(group_runs(backtrace_path(a, b, a.len() as int, b.len() as int)))
}

// ---------------------------------------------------------------------------
// What a well-formed edit script looks like.
// ---------------------------------------------------------------------------

/// The operations stand back to back: the first begins at `(i, j)`, each
/// next one begins where its predecessor ended, and the last ends at
/// `(m, n)`. Together with `ops_positive` this is the partition property:
/// the old sides of the operations cover `i..m` without gap or overlap, and
/// the new sides cover `j..n`.
pub open spec fn ops_chained(ops: Seq<SpecOp>, i: int, j: int, m: int, n: int) -> bool
    decreases ops.len(),
{
    if ops.len() == 0 {
        i == m && j == n
    } else {
        ops[0].old_start() == i && ops[0].new_start() == j && ops_chained(
            ops.skip(1),
            i + ops[0].old_adv(),
            j + ops[0].new_adv(),
            m,
            n,
        )
    }
}

/// Every operation covers at least one element.
pub open spec fn ops_positive(ops: Seq<SpecOp>) -> bool {
    forall|k: int| 0 <= k < ops.len() ==> (#[trigger] ops[k]).positive()
}

/// The elements an `Equal` operation pairs up really are equivalent.
pub open spec fn op_matches<T: DiffElemSpec>(op: SpecOp, a: Seq<T>, b: Seq<T>) -> bool {
    op.is_equal() ==> forall|oi: int, nj: int|
        op.old_start() <= oi < op.old_start() + op.old_adv() && nj - op.new_start() == oi
            - op.old_start() ==> #[trigger] a[oi].eqv(&b[nj])
}

pub open spec fn ops_match<T: DiffElemSpec>(ops: Seq<SpecOp>, a: Seq<T>, b: Seq<T>) -> bool {
    forall|k: int| 0 <= k < ops.len() ==> op_matches(#[trigger] ops[k], a, b)
}

/// No remove stands next to an insert in either order (such a pair would have
/// merged into a `Replace`), and no two equal-runs stand next to each other.
pub open spec fn ops_coalesced(ops: Seq<SpecOp>) -> bool {
    forall|k: int|
        0 <= k && k + 1 < ops.len() ==> {
            &&& !((#[trigger] ops[k]).is_remove() && ops[k + 1].is_insert())
            &&& !(ops[k].is_insert() && ops[k + 1].is_remove())
            &&& !(ops[k].is_equal() && ops[k + 1].is_equal())
        }
}

/// The total number of changed elements over the whole script.
pub open spec fn edit_weight(ops: Seq<SpecOp>) -> int
    decreases ops.len(),
{
    if ops.len() == 0 {
        0
    } else {
        ops[0].weight() + edit_weight(ops.skip(1))
    }
}

/// The old-side elements of the operations, concatenated in order.
pub open spec fn old_side<T>(ops: Seq<SpecOp>, a: Seq<T>) -> Seq<T>
    decreases ops.len(),
{
    if ops.len() == 0 {
        Seq::empty()
    } else {
        a.subrange(ops[0].old_start(), ops[0].old_start() + ops[0].old_adv()) + old_side(
            ops.skip(1),
            a,
        )
    }
}

/// The new-side elements of the operations, concatenated in order.
pub open spec fn new_side<T>(ops: Seq<SpecOp>, b: Seq<T>) -> Seq<T>
    decreases ops.len(),
{
    if ops.len() == 0 {
        Seq::empty()
    } else {
        b.subrange(ops[0].new_start(), ops[0].new_start() + ops[0].new_adv()) + new_side(
            ops.skip(1),
            b,
        )
    }
}

} // verus!

verus! {

// ---------------------------------------------------------------------------
// Well-formedness of the run list that grouping produces.
// ---------------------------------------------------------------------------

/// The runs of the backtraced decisions for `a.take(i)` versus `b.take(j)`.
pub open spec fn runs_of<T: DiffElemSpec>(a: Seq<T>, b: Seq<T>, i: int, j: int) -> Seq<Run> {
    group_runs(backtrace_path(a, b, i, j))
}

/// The runs stand back to back from `(i, j)` to `(m, n)`.
pub open spec fn runs_chained(rs: Seq<Run>, i: int, j: int, m: int, n: int) -> bool
    decreases rs.len(),
{
    if rs.len() == 0 {
        i == m && j == n
    } else {
        rs[0].old_start == i && rs[0].new_start == j && runs_chained(
            rs.skip(1),
            i + rs[0].old_adv(),
            j + rs[0].new_adv(),
            m,
            n,
        )
    }
}

/// Every run covers at least one decision.
pub open spec fn runs_wf(rs: Seq<Run>) -> bool {
    forall|k: int| 0 <= k < rs.len() ==> (#[trigger] rs[k]).len >= 1
}

/// Runs are maximal: no two adjacent runs share a kind.
pub open spec fn runs_alt(rs: Seq<Run>) -> bool {
    forall|k: int| 0 <= k && k + 1 < rs.len() ==> (#[trigger] rs[k]).kind != rs[k + 1].kind
}

/// The elements a keep-run pairs up are equivalent.
pub open spec fn run_matches<T: DiffElemSpec>(r: Run, a: Seq<T>, b: Seq<T>) -> bool {
    r.kind is Keep ==> forall|oi: int, nj: int|
        r.old_start <= oi < r.old_start + r.len && nj - r.new_start == oi - r.old_start
            ==> #[trigger] a[oi].eqv(&b[nj])
}

pub open spec fn runs_match<T: DiffElemSpec>(rs: Seq<Run>, a: Seq<T>, b: Seq<T>) -> bool {
    forall|k: int| 0 <= k < rs.len() ==> run_matches(#[trigger] rs[k], a, b)
}

/// How many decisions of the runs are changes rather than keeps.
pub open spec fn runs_weight(rs: Seq<Run>) -> int
    decreases rs.len(),
{
    if rs.len() == 0 {
        0
    } else {
        (if rs[0].kind is Keep {
            0
        } else {
            rs[0].len
        }) + runs_weight(rs.skip(1))
    }
}

proof fn lemma_runs_chained_push(rs: Seq<Run>, r: Run, i: int, j: int, m: int, n: int)
    requires
        runs_chained(rs, i, j, m, n),
        r.old_start == m,
        r.new_start == n,
    ensures
        runs_chained(rs.push(r), i, j, m + r.old_adv(), n + r.new_adv()),
    decreases rs.len(),
{
    if rs.len() == 0 {
        assert(rs.push(r).skip(1) =~= Seq::<Run>::empty());
        assert(runs_chained(
            rs.push(r).skip(1),
            i + r.old_adv(),
            j + r.new_adv(),
            m + r.old_adv(),
            n + r.new_adv(),
        ));
        assert(rs.push(r)[0] == r);
    } else {
        lemma_runs_chained_push(rs.skip(1), r, i + rs[0].old_adv(), j + rs[0].new_adv(), m, n);
        assert(rs.push(r).skip(1) =~= rs.skip(1).push(r));
        assert(rs.push(r)[0] == rs[0]);
    }
}

proof fn lemma_runs_chained_update(rs: Seq<Run>, r2: Run, i: int, j: int, m: int, n: int)
    requires
        rs.len() > 0,
        runs_chained(rs, i, j, m, n),
        r2.kind == rs.last().kind,
        r2.old_start == rs.last().old_start,
        r2.new_start == rs.last().new_start,
        r2.len == rs.last().len + 1,
    ensures
        runs_chained(
            rs.update(rs.len() - 1, r2),
            i,
            j,
            m + r2.old_adv() - rs.last().old_adv(),
            n + r2.new_adv() - rs.last().new_adv(),
        ),
    decreases rs.len(),
{
    if rs.len() == 1 {
        assert(rs.skip(1) =~= Seq::<Run>::empty());
        assert(runs_chained(rs.skip(1), i + rs[0].old_adv(), j + rs[0].new_adv(), m, n));
        assert(m == i + rs[0].old_adv());
        assert(n == j + rs[0].new_adv());
        assert(rs.update(0, r2)[0] == r2);
        assert(rs.update(0, r2).skip(1) =~= Seq::<Run>::empty());
        assert(runs_chained(
            rs.update(0, r2).skip(1),
            i + r2.old_adv(),
            j + r2.new_adv(),
            m + r2.old_adv() - rs.last().old_adv(),
            n + r2.new_adv() - rs.last().new_adv(),
        ));
    } else {
        assert(rs.skip(1).len() > 0);
        assert(rs.skip(1).last() == rs.last());
        lemma_runs_chained_update(rs.skip(1), r2, i + rs[0].old_adv(), j + rs[0].new_adv(), m, n);
        assert(rs.update(rs.len() - 1, r2).skip(1) =~= rs.skip(1).update(rs.skip(1).len() - 1, r2));
        assert(rs.update(rs.len() - 1, r2)[0] == rs[0]);
    }
}

proof fn lemma_runs_chained_last(rs: Seq<Run>, i: int, j: int, m: int, n: int)
    requires
        runs_chained(rs, i, j, m, n),
        rs.len() > 0,
    ensures
        rs.last().old_end() == m,
        rs.last().new_end() == n,
    decreases rs.len(),
{
    if rs.len() == 1 {
        assert(rs.skip(1) =~= Seq::<Run>::empty());
        assert(runs_chained(rs.skip(1), i + rs[0].old_adv(), j + rs[0].new_adv(), m, n));
        assert(m == i + rs[0].old_adv());
        assert(n == j + rs[0].new_adv());
    } else {
        assert(rs.skip(1).last() == rs.last());
        lemma_runs_chained_last(rs.skip(1), i + rs[0].old_adv(), j + rs[0].new_adv(), m, n);
    }
}

proof fn lemma_runs_weight_push(rs: Seq<Run>, r: Run)
    ensures
        runs_weight(rs.push(r)) == runs_weight(rs) + (if r.kind is Keep {
            0int
        } else {
            r.len
        }),
    decreases rs.len(),
{
    if rs.len() == 0 {
        assert(rs.push(r).skip(1) =~= Seq::<Run>::empty());
        assert(runs_weight(rs.push(r).skip(1)) == 0);
        assert(rs.push(r)[0] == r);
    } else {
        lemma_runs_weight_push(rs.skip(1), r);
        assert(rs.push(r).skip(1) =~= rs.skip(1).push(r));
        assert(rs.push(r)[0] == rs[0]);
    }
}

proof fn lemma_runs_weight_update(rs: Seq<Run>, r2: Run)
    requires
        rs.len() > 0,
        r2.kind == rs.last().kind,
        r2.len == rs.last().len + 1,
    ensures
        runs_weight(rs.update(rs.len() - 1, r2)) == runs_weight(rs) + (if r2.kind is Keep {
            0int
        } else {
            1int
        }),
    decreases rs.len(),
{
    if rs.len() == 1 {
        assert(rs.update(0, r2)[0] == r2);
        assert(rs.update(0, r2).skip(1) =~= Seq::<Run>::empty());
        assert(rs.skip(1) =~= Seq::<Run>::empty());
    } else {
        assert(rs.skip(1).last() == rs.last());
        lemma_runs_weight_update(rs.skip(1), r2);
        assert(rs.update(rs.len() - 1, r2).skip(1) =~= rs.skip(1).update(rs.skip(1).len() - 1, r2));
        assert(rs.update(rs.len() - 1, r2)[0] == rs[0]);
    }
}

} // verus!

verus! {

/// How far one decision advances the old-side position.
pub open spec fn dec_old_step(dec: Decision) -> int {
    if dec is Insert {
        0
    } else {
        1
    }
}

/// How far one decision advances the new-side position.
pub open spec fn dec_new_step(dec: Decision) -> int {
    if dec is Remove {
        0
    } else {
        1
    }
}

/// Extending the last run by one decision preserves run well-formedness.
#[verifier::rlimit(100)]
#[verifier::spinoff_prover]
proof fn lemma_runs_props_update<T: DiffElemSpec>(
    rs0: Seq<Run>,
    r2: Run,
    a: Seq<T>,
    b: Seq<T>,
    i0: int,
    j0: int,
)
    requires
        rs0.len() > 0,
        runs_wf(rs0),
        runs_alt(rs0),
        runs_match(rs0, a, b),
        r2.kind == rs0.last().kind,
        r2.old_start == rs0.last().old_start,
        r2.new_start == rs0.last().new_start,
        r2.len == rs0.last().len + 1,
        r2.kind is Keep ==> rs0.last().old_end() == i0 && rs0.last().new_end() == j0
            && a[i0].eqv(&b[j0]),
    ensures
        runs_wf(rs0.update(rs0.len() - 1, r2)),
        runs_alt(rs0.update(rs0.len() - 1, r2)),
        runs_match(rs0.update(rs0.len() - 1, r2), a, b),
{
    let rs1 = rs0.update(rs0.len() - 1, r2);
    let last0 = rs0.last();
    assert forall|k: int| 0 <= k < rs1.len() implies (#[trigger] rs1[k]).len >= 1 by {
        if k == rs0.len() - 1 {
        } else {
            assert(rs1[k] == rs0[k]);
        }
    }
    assert forall|k: int| 0 <= k && k + 1 < rs1.len() implies (#[trigger] rs1[k]).kind != rs1[
        k + 1
    ].kind by {
        assert(rs1[k].kind == rs0[k].kind);
        assert(rs1[k + 1].kind == rs0[k + 1].kind);
    }
    assert forall|k: int| 0 <= k < rs1.len() implies run_matches(#[trigger] rs1[k], a, b) by {
        if k == rs0.len() - 1 {
            if r2.kind is Keep {
                assert(run_matches(rs0[k], a, b));
                assert forall|oi: int, nj: int|
                    r2.old_start <= oi < r2.old_start + r2.len && nj - r2.new_start == oi
                        - r2.old_start implies #[trigger] a[oi].eqv(&b[nj]) by {
                    if oi < last0.old_start + last0.len {
                        assert(a[oi].eqv(&b[nj]));
                    } else {
                        assert(oi == i0);
                        assert(nj == j0);
                    }
                }
            }
        } else {
            assert(rs1[k] == rs0[k]);
            assert(run_matches(rs0[k], a, b));
        }
    }
}

/// Opening a fresh one-decision run preserves run well-formedness.
#[verifier::rlimit(100)]
#[verifier::spinoff_prover]
proof fn lemma_runs_props_push<T: DiffElemSpec>(rs0: Seq<Run>, r: Run, a: Seq<T>, b: Seq<T>)
    requires
        runs_wf(rs0),
        runs_alt(rs0),
        runs_match(rs0, a, b),
        r.len == 1,
        rs0.len() > 0 ==> rs0.last().kind != r.kind,
        r.kind is Keep ==> a[r.old_start].eqv(&b[r.new_start]),
    ensures
        runs_wf(rs0.push(r)),
        runs_alt(rs0.push(r)),
        runs_match(rs0.push(r), a, b),
{
    let rs1 = rs0.push(r);
    assert forall|k: int| 0 <= k < rs1.len() implies (#[trigger] rs1[k]).len >= 1 by {
        if k < rs0.len() {
            assert(rs1[k] == rs0[k]);
        } else {
            assert(rs1[k] == r);
        }
    }
    assert forall|k: int| 0 <= k && k + 1 < rs1.len() implies (#[trigger] rs1[k]).kind != rs1[
        k + 1
    ].kind by {
        assert(rs1[k] == rs0[k]);
        if k + 1 < rs0.len() {
            assert(rs1[k + 1] == rs0[k + 1]);
        } else {
            assert(rs1[k + 1] == r);
            assert(rs0[k] == rs0.last());
        }
    }
    assert forall|k: int| 0 <= k < rs1.len() implies run_matches(#[trigger] rs1[k], a, b) by {
        if k < rs0.len() {
            assert(rs1[k] == rs0[k]);
            assert(run_matches(rs0[k], a, b));
        } else {
            assert(rs1[k] == r);
            if r.kind is Keep {
                assert forall|oi2: int, nj2: int|
                    r.old_start <= oi2 < r.old_start + r.len && nj2 - r.new_start == oi2
                        - r.old_start implies #[trigger] a[oi2].eqv(&b[nj2]) by {
                    assert(oi2 == r.old_start);
                    assert(nj2 == r.new_start);
                }
            }
        }
    }
}

/// Appending one decision to a grouped decision list keeps the run list
/// well formed and advances its end positions by one step.
#[verifier::rlimit(100)]
#[verifier::spinoff_prover]
proof fn lemma_group_step<T: DiffElemSpec>(
    a: Seq<T>,
    b: Seq<T>,
    p0: Seq<Decision>,
    dec: Decision,
    i0: int,
    j0: int,
)
    requires
        runs_chained(group_runs(p0), 0, 0, i0, j0),
        runs_wf(group_runs(p0)),
        runs_alt(group_runs(p0)),
        runs_match(group_runs(p0), a, b),
        dec is Keep ==> a[i0].eqv(&b[j0]),
    ensures
        runs_chained(group_runs(p0.push(dec)), 0, 0, i0 + dec_old_step(dec), j0 + dec_new_step(dec)),
        runs_wf(group_runs(p0.push(dec))),
        runs_alt(group_runs(p0.push(dec))),
        runs_match(group_runs(p0.push(dec)), a, b),
        runs_weight(group_runs(p0.push(dec))) == runs_weight(group_runs(p0)) + (if dec is Keep {
            0int
        } else {
            1int
        }),
{
    let rs0 = group_runs(p0);
    let p1 = p0.push(dec);
    assert(p1.drop_last() =~= p0);
    assert(p1.last() == dec);
    let rs1 = group_runs(p1);
    if rs0.len() > 0 && rs0.last().kind == dec {
        let last0 = rs0.last();
        let r2 = Run {
            kind: last0.kind,
            old_start: last0.old_start,
            new_start: last0.new_start,
            len: last0.len + 1,
        };
        assert(rs1 == rs0.update(rs0.len() - 1, r2));
        lemma_runs_chained_update(rs0, r2, 0, 0, i0, j0);
        lemma_runs_chained_last(rs0, 0, 0, i0, j0);
        lemma_runs_weight_update(rs0, r2);
        assert(last0.old_end() == i0);
        assert(last0.new_end() == j0);
        lemma_runs_props_update(rs0, r2, a, b, i0, j0);
    } else {
        let oi = if rs0.len() == 0 {
            0int
        } else {
            rs0.last().old_end()
        };
        let nj = if rs0.len() == 0 {
            0int
        } else {
            rs0.last().new_end()
        };
        let r = Run { kind: dec, old_start: oi, new_start: nj, len: 1 };
        assert(rs1 == rs0.push(r));
        if rs0.len() == 0 {
            assert(i0 == 0 && j0 == 0);
        } else {
            lemma_runs_chained_last(rs0, 0, 0, i0, j0);
        }
        lemma_runs_chained_push(rs0, r, 0, 0, i0, j0);
        lemma_runs_weight_push(rs0, r);
        assert(oi == i0);
        assert(nj == j0);
        lemma_runs_props_push(rs0, r, a, b);
    }
}

/// The grouped backtrace for `a.take(i)` versus `b.take(j)` is a well-formed
/// run list from `(0, 0)` to `(i, j)` whose changed-element count is
/// `i + j - 2 * lcs`.
#[verifier::rlimit(100)]
#[verifier::spinoff_prover]
pub proof fn lemma_path_runs<T: DiffElemSpec>(a: Seq<T>, b: Seq<T>, i: int, j: int)
    requires
        0 <= i <= a.len(),
        0 <= j <= b.len(),
    ensures
        runs_chained(runs_of(a, b, i, j), 0, 0, i, j),
        runs_wf(runs_of(a, b, i, j)),
        runs_alt(runs_of(a, b, i, j)),
        runs_match(runs_of(a, b, i, j), a, b),
        runs_weight(runs_of(a, b, i, j)) == i + j - 2 * lcs_len(a.take(i), b.take(j)),
    decreases i + j,
{
    let p = backtrace_path(a, b, i, j);
    let rs = runs_of(a, b, i, j);
    if i == 0 && j == 0 {
        assert(p =~= Seq::<Decision>::empty());
        assert(rs =~= Seq::<Run>::empty());
        assert(runs_chained(rs, 0, 0, 0, 0));
        assert(runs_weight(rs) == 0);
        assert(lcs_len(a.take(0), b.take(0)) == 0);
    } else if i > 0 && j > 0 && a[i - 1].eqv(&b[j - 1]) {
        lemma_path_runs(a, b, i - 1, j - 1);
        lemma_group_step(a, b, backtrace_path(a, b, i - 1, j - 1), Decision::Keep, i - 1, j - 1);
        assert(p == backtrace_path(a, b, i - 1, j - 1).push(Decision::Keep));
        assert(a.take(i).drop_last() =~= a.take(i - 1));
        assert(b.take(j).drop_last() =~= b.take(j - 1));
        assert(a.take(i).last() == a[i - 1]);
        assert(b.take(j).last() == b[j - 1]);
        assert(lcs_len(a.take(i), b.take(j)) == lcs_len(a.take(i - 1), b.take(j - 1)) + 1);
    } else if i > 0 && (j <= 0 || lcs_len(a.take(i - 1), b.take(j)) >= lcs_len(
        a.take(i),
        b.take(j - 1),
    )) {
        lemma_path_runs(a, b, i - 1, j);
        lemma_group_step(a, b, backtrace_path(a, b, i - 1, j), Decision::Remove, i - 1, j);
        assert(p == backtrace_path(a, b, i - 1, j).push(Decision::Remove));
        if j == 0 {
            assert(lcs_len(a.take(i), b.take(0)) == 0);
            assert(lcs_len(a.take(i - 1), b.take(0)) == 0);
        } else {
            assert(!a[i - 1].eqv(&b[j - 1]));
            assert(a.take(i).drop_last() =~= a.take(i - 1));
            assert(b.take(j).drop_last() =~= b.take(j - 1));
            assert(a.take(i).last() == a[i - 1]);
            assert(b.take(j).last() == b[j - 1]);
            assert(lcs_len(a.take(i), b.take(j)) == lcs_len(a.take(i - 1), b.take(j)));
        }
    } else {
        assert(j > 0);
        lemma_path_runs(a, b, i, j - 1);
        lemma_group_step(a, b, backtrace_path(a, b, i, j - 1), Decision::Insert, i, j - 1);
        assert(p == backtrace_path(a, b, i, j - 1).push(Decision::Insert));
        if i == 0 {
            assert(lcs_len(a.take(0), b.take(j)) == 0);
            assert(lcs_len(a.take(0), b.take(j - 1)) == 0);
        } else {
            assert(!a[i - 1].eqv(&b[j - 1]));
            assert(a.take(i).drop_last() =~= a.take(i - 1));
            assert(b.take(j).drop_last() =~= b.take(j - 1));
            assert(a.take(i).last() == a[i - 1]);
            assert(b.take(j).last() == b[j - 1]);
            assert(lcs_len(a.take(i), b.take(j)) == lcs_len(a.take(i), b.take(j - 1)));
        }
    }
}

} // verus!

verus! {

/// Restricting a well-formed run list to its tail keeps it well formed.
proof fn lemma_runs_skip(rs: Seq<Run>, t: int)
    requires
        0 <= t <= rs.len(),
        runs_wf(rs),
        runs_alt(rs),
    ensures
        runs_wf(rs.skip(t)),
        runs_alt(rs.skip(t)),
{
    assert forall|k: int| 0 <= k < rs.skip(t).len() implies (#[trigger] rs.skip(t)[k]).len >= 1 by {
        assert(rs.skip(t)[k] == rs[k + t]);
    }
    assert forall|k: int| 0 <= k && k + 1 < rs.skip(t).len() implies (#[trigger] rs.skip(t)[k]).kind
        != rs.skip(t)[k + 1].kind by {
        assert(rs.skip(t)[k] == rs[k + t]);
        assert(rs.skip(t)[k + 1] == rs[k + t + 1]);
    }
}

proof fn lemma_runs_match_skip<T: DiffElemSpec>(rs: Seq<Run>, a: Seq<T>, b: Seq<T>, t: int)
    requires
        0 <= t <= rs.len(),
        runs_match(rs, a, b),
    ensures
        runs_match(rs.skip(t), a, b),
{
    assert forall|k: int| 0 <= k < rs.skip(t).len() implies run_matches(
        #[trigger] rs.skip(t)[k],
        a,
        b,
    ) by {
        assert(rs.skip(t)[k] == rs[k + t]);
        assert(run_matches(rs[k + t], a, b));
    }
}

/// Merging keeps the operations back to back and keeps the changed-element
/// count of the runs.
#[verifier::rlimit(100)]
#[verifier::spinoff_prover]
proof fn lemma_merge_chained(rs: Seq<Run>, i: int, j: int, m: int, n: int)
    requires
        runs_chained(rs, i, j, m, n),
        runs_wf(rs),
    ensures
        ops_chained(merge_runs(rs), i, j, m, n),
        edit_weight(merge_runs(rs)) == runs_weight(rs),
    decreases rs.len(),
{
    let ops = merge_runs(rs);
    if rs.len() == 0 {
        assert(ops =~= Seq::<SpecOp>::empty());
        assert(edit_weight(ops) == 0);
    } else if rs.len() >= 2 && run_mergeable(rs[0], rs[1]) {
        let op0 = run_merge(rs[0], rs[1]);
        let rest = merge_runs(rs.skip(2));
        assert(ops == seq![op0] + rest);
        assert(runs_chained(rs.skip(1), i + rs[0].old_adv(), j + rs[0].new_adv(), m, n));
        assert(rs.skip(1)[0] == rs[1]);
        assert(rs.skip(1).skip(1) =~= rs.skip(2));
        let i2 = i + rs[0].old_adv() + rs[1].old_adv();
        let j2 = j + rs[0].new_adv() + rs[1].new_adv();
        assert(runs_chained(rs.skip(2), i2, j2, m, n));
        assert forall|k: int| 0 <= k < rs.skip(2).len() implies (#[trigger] rs.skip(2)[k]).len
            >= 1 by {
            assert(rs.skip(2)[k] == rs[k + 2]);
        }
        lemma_merge_chained(rs.skip(2), i2, j2, m, n);
        assert(ops[0] == op0);
        assert(ops.skip(1) =~= rest);
        assert(op0.old_start() == i && op0.new_start() == j);
        assert(op0.old_adv() == rs[0].old_adv() + rs[1].old_adv());
        assert(op0.new_adv() == rs[0].new_adv() + rs[1].new_adv());
        assert(ops_chained(ops, i, j, m, n));
        assert(edit_weight(ops) == op0.weight() + edit_weight(rest));
        assert(runs_weight(rs.skip(1)) == rs[1].len + runs_weight(rs.skip(2)));
    } else {
        let op0 = run_op(rs[0]);
        let rest = merge_runs(rs.skip(1));
        assert(ops == seq![op0] + rest);
        let i1 = i + rs[0].old_adv();
        let j1 = j + rs[0].new_adv();
        assert(runs_chained(rs.skip(1), i1, j1, m, n));
        assert forall|k: int| 0 <= k < rs.skip(1).len() implies (#[trigger] rs.skip(1)[k]).len
            >= 1 by {
            assert(rs.skip(1)[k] == rs[k + 1]);
        }
        lemma_merge_chained(rs.skip(1), i1, j1, m, n);
        assert(ops[0] == op0);
        assert(ops.skip(1) =~= rest);
        assert(ops_chained(ops, i, j, m, n));
        assert(edit_weight(ops) == op0.weight() + edit_weight(rest));
    }
}

/// Merging keeps every operation non-empty and keeps equal-runs matching.
#[verifier::rlimit(100)]
#[verifier::spinoff_prover]
proof fn lemma_merge_positive_match<T: DiffElemSpec>(rs: Seq<Run>, a: Seq<T>, b: Seq<T>)
    requires
        runs_wf(rs),
        runs_alt(rs),
        runs_match(rs, a, b),
    ensures
        ops_positive(merge_runs(rs)),
        ops_match(merge_runs(rs), a, b),
    decreases rs.len(),
{
    let ops = merge_runs(rs);
    if rs.len() == 0 {
    } else {
        let t: int = if rs.len() >= 2 && run_mergeable(rs[0], rs[1]) {
            2
        } else {
            1
        };
        let op0: SpecOp = if t == 2 {
            run_merge(rs[0], rs[1])
        } else {
            run_op(rs[0])
        };
        let rest = merge_runs(rs.skip(t));
        assert(ops == seq![op0] + rest);
        lemma_runs_skip(rs, t);
        lemma_runs_match_skip(rs, a, b, t);
        lemma_merge_positive_match(rs.skip(t), a, b);
        assert(ops[0] == op0);
        assert forall|k: int| 0 <= k < ops.len() implies (#[trigger] ops[k]).positive() by {
            if k == 0 {
                assert(rs[0].len >= 1);
                if t == 2 {
                    assert(rs[1].len >= 1);
                }
            } else {
                assert(ops[k] == rest[k - 1]);
            }
        }
        assert forall|k: int| 0 <= k < ops.len() implies op_matches(#[trigger] ops[k], a, b) by {
            if k == 0 {
                if op0.is_equal() {
                    assert(t == 1 && rs[0].kind is Keep);
                    assert(run_matches(rs[0], a, b));
                }
            } else {
                assert(ops[k] == rest[k - 1]);
                assert(op_matches(rest[k - 1], a, b));
            }
        }
    }
}

/// After the merge pass no remove/insert pair survives in either order and
/// no two equal-runs stand next to each other; the first operation keeps the
/// kind of the first run unless it became a `Replace`.
#[verifier::rlimit(100)]
#[verifier::spinoff_prover]
proof fn lemma_merge_coalesced(rs: Seq<Run>)
    requires
        runs_alt(rs),
        runs_wf(rs),
    ensures
        ops_coalesced(merge_runs(rs)),
        merge_runs(rs).len() > 0 ==> rs.len() > 0,
        merge_runs(rs).len() == 0 ==> rs.len() == 0,
        merge_runs(rs).len() > 0 ==> ((merge_runs(rs)[0].is_equal() ==> rs[0].kind is Keep) && (
        merge_runs(rs)[0].is_remove() ==> rs[0].kind is Remove) && (merge_runs(rs)[0].is_insert()
            ==> rs[0].kind is Insert)),
    decreases rs.len(),
{
    let ops = merge_runs(rs);
    if rs.len() == 0 {
        assert(ops =~= Seq::<SpecOp>::empty());
    } else {
        let t: int = if rs.len() >= 2 && run_mergeable(rs[0], rs[1]) {
            2
        } else {
            1
        };
        let op0: SpecOp = if t == 2 {
            run_merge(rs[0], rs[1])
        } else {
            run_op(rs[0])
        };
        let rest = merge_runs(rs.skip(t));
        assert(ops == seq![op0] + rest);
        lemma_runs_skip(rs, t);
        lemma_merge_coalesced(rs.skip(t));
        assert(ops[0] == op0);
        assert forall|k: int|
            0 <= k && k + 1 < ops.len() implies {
            &&& !((#[trigger] ops[k]).is_remove() && ops[k + 1].is_insert())
            &&& !(ops[k].is_insert() && ops[k + 1].is_remove())
            &&& !(ops[k].is_equal() && ops[k + 1].is_equal())
        } by {
            if k == 0 {
                assert(ops[1] == rest[0]);
                if t == 1 && rest.len() > 0 {
                    assert(rs.skip(1)[0] == rs[1]);
                    if op0.is_equal() && ops[1].is_equal() {
                        assert(rs[1].kind is Keep);
                        assert(rs[0].kind is Keep);
                    }
                    if op0.is_remove() && ops[1].is_insert() {
                        assert(rs[1].kind is Insert);
                        assert(run_mergeable(rs[0], rs[1]));
                    }
                    if op0.is_insert() && ops[1].is_remove() {
                        assert(rs[1].kind is Remove);
                        assert(run_mergeable(rs[0], rs[1]));
                    }
                }
            } else {
                assert(ops[k] == rest[k - 1]);
                assert(ops[k + 1] == rest[k]);
            }
        }
    }
}

/// The edit script that `diff` computes is a partition of its two inputs
/// into back-to-back operations, pairs equivalent elements under `Equal`,
/// leaves no remove/insert pair unmerged and no two equal-runs adjacent, and
/// changes exactly `len(a) + len(b) - 2 * lcs` elements: no equally shaped
/// script with fewer changed elements exists over the same common
/// subsequence length.
pub proof fn lemma_diff_spec_props<T: DiffElemSpec>(a: Seq<T>, b: Seq<T>)
    ensures
        ops_chained(diff_spec(a, b), 0, 0, a.len() as int, b.len() as int),
        ops_positive(diff_spec(a, b)),
        ops_match(diff_spec(a, b), a, b),
        ops_coalesced(diff_spec(a, b)),
        edit_weight(diff_spec(a, b)) == a.len() + b.len() - 2 * lcs_len(a, b),
{
    let rs = runs_of(a, b, a.len() as int, b.len() as int);
    lemma_path_runs(a, b, a.len() as int, b.len() as int);
    lemma_merge_chained(rs, 0, 0, a.len() as int, b.len() as int);
    lemma_merge_positive_match(rs, a, b);
    lemma_merge_coalesced(rs);
    assert(a.take(a.len() as int) =~= a);
    assert(b.take(b.len() as int) =~= b);
}

} // verus!

verus! {

proof fn lemma_old_side_covers<T>(ops: Seq<SpecOp>, a: Seq<T>, i: int, j: int, m: int, n: int)
    requires
        ops_chained(ops, i, j, m, n),
        ops_positive(ops),
        0 <= i,
        m <= a.len(),
    ensures
        i <= m,
        old_side(ops, a) == a.subrange(i, m),
    decreases ops.len(),
{
    if ops.len() == 0 {
        assert(a.subrange(i, i) =~= Seq::<T>::empty());
        assert(old_side(ops, a) =~= Seq::<T>::empty());
    } else {
        assert(ops[0].positive());
        assert forall|k: int| 0 <= k < ops.skip(1).len() implies (#[trigger] ops.skip(
            1,
        )[k]).positive() by {
            assert(ops.skip(1)[k] == ops[k + 1]);
        }
        lemma_old_side_covers(ops.skip(1), a, i + ops[0].old_adv(), j + ops[0].new_adv(), m, n);
        assert(a.subrange(i, i + ops[0].old_adv()) + a.subrange(i + ops[0].old_adv(), m) =~= a
            .subrange(i, m));
    }
}

proof fn lemma_new_side_covers<T>(ops: Seq<SpecOp>, b: Seq<T>, i: int, j: int, m: int, n: int)
    requires
        ops_chained(ops, i, j, m, n),
        ops_positive(ops),
        0 <= j,
        n <= b.len(),
    ensures
        j <= n,
        new_side(ops, b) == b.subrange(j, n),
    decreases ops.len(),
{
    if ops.len() == 0 {
        assert(b.subrange(j, j) =~= Seq::<T>::empty());
        assert(new_side(ops, b) =~= Seq::<T>::empty());
    } else {
        assert(ops[0].positive());
        assert forall|k: int| 0 <= k < ops.skip(1).len() implies (#[trigger] ops.skip(
            1,
        )[k]).positive() by {
            assert(ops.skip(1)[k] == ops[k + 1]);
        }
        lemma_new_side_covers(ops.skip(1), b, i + ops[0].old_adv(), j + ops[0].new_adv(), m, n);
        assert(b.subrange(j, j + ops[0].new_adv()) + b.subrange(j + ops[0].new_adv(), n) =~= b
            .subrange(j, n));
    }
}

/// Reconstruction: concatenating the old-side elements of the edit script in
/// order reproduces the old input exactly, and the new-side elements the new
/// input.
pub proof fn lemma_reconstruction<T: DiffElemSpec>(a: Seq<T>, b: Seq<T>)
    ensures
        old_side(diff_spec(a, b), a) == a,
        new_side(diff_spec(a, b), b) == b,
{
    lemma_diff_spec_props(a, b);
    lemma_old_side_covers(diff_spec(a, b), a, 0, 0, a.len() as int, b.len() as int);
    lemma_new_side_covers(diff_spec(a, b), b, 0, 0, a.len() as int, b.len() as int);
    assert(a.subrange(0, a.len() as int) =~= a);
    assert(b.subrange(0, b.len() as int) =~= b);
}

/// `n` copies of one decision.
pub open spec fn uniform_decisions(dec: Decision, len: int) -> Seq<Decision> {
    Seq::new(len as nat, |k: int| dec)
}

proof fn lemma_group_uniform(dec: Decision, len: int)
    requires
        0 <= len,
    ensures
        len == 0 ==> group_runs(uniform_decisions(dec, len)) == Seq::<Run>::empty(),
        len > 0 ==> group_runs(uniform_decisions(dec, len)) == seq![
            Run { kind: dec, old_start: 0, new_start: 0, len: len },
        ],
    decreases len,
{
    let d = uniform_decisions(dec, len);
    if len == 0 {
        assert(d =~= Seq::<Decision>::empty());
        assert(group_runs(d) =~= Seq::<Run>::empty());
    } else {
        lemma_group_uniform(dec, len - 1);
        assert(d.drop_last() =~= uniform_decisions(dec, len - 1));
        assert(d.last() == dec);
        if len == 1 {
            assert(group_runs(d) == group_runs(d.drop_last()).push(
                Run { kind: dec, old_start: 0, new_start: 0, len: 1 },
            ));
            assert(Seq::<Run>::empty().push(Run { kind: dec, old_start: 0, new_start: 0, len: 1 })
                =~= seq![Run { kind: dec, old_start: 0, new_start: 0, len: 1 }]);
        } else {
            let rs0 = seq![Run { kind: dec, old_start: 0, new_start: 0, len: len - 1 }];
            assert(group_runs(d.drop_last()) == rs0);
            assert(rs0.last().kind == dec);
            assert(rs0.update(0, Run { kind: dec, old_start: 0, new_start: 0, len: len }) =~= seq![
                Run { kind: dec, old_start: 0, new_start: 0, len: len },
            ]);
        }
    }
}

proof fn lemma_merge_single(r: Run)
    ensures
        merge_runs(seq![r]) == seq![run_op(r)],
{
    let rs = seq![r];
    assert(rs.len() == 1);
    assert(rs.skip(1) =~= Seq::<Run>::empty());
    assert(merge_runs(rs.skip(1)) =~= Seq::<SpecOp>::empty());
    assert(seq![run_op(r)] + Seq::<SpecOp>::empty() =~= seq![run_op(r)]);
}

proof fn lemma_path_self<T: DiffElemSpec>(s: Seq<T>, i: int)
    requires
        0 <= i <= s.len(),
    ensures
        backtrace_path(s, s, i, i) == uniform_decisions(Decision::Keep, i),
    decreases i,
{
    if i == 0 {
        assert(backtrace_path(s, s, 0, 0) =~= uniform_decisions(Decision::Keep, 0));
    } else {
        let x = s[i - 1];
        x.eqv_reflexive();
        assert(s[i - 1].eqv(&s[i - 1]));
        lemma_path_self(s, i - 1);
        assert(backtrace_path(s, s, i, i) == backtrace_path(s, s, i - 1, i - 1).push(
            Decision::Keep,
        ));
        assert(uniform_decisions(Decision::Keep, i - 1).push(Decision::Keep) =~= uniform_decisions(
            Decision::Keep,
            i,
        ));
    }
}

/// Identity: diffing a sequence against itself yields a single `Equal`
/// operation covering all of it, and the empty script for the empty input.
pub proof fn lemma_diff_identity<T: DiffElemSpec>(s: Seq<T>)
    ensures
        s.len() == 0 ==> diff_spec(s, s) == Seq::<SpecOp>::empty(),
        s.len() > 0 ==> diff_spec(s, s) == seq![
            SpecOp::Equal { old_start: 0, new_start: 0, len: s.len() as int },
        ],
{
    lemma_path_self(s, s.len() as int);
    lemma_group_uniform(Decision::Keep, s.len() as int);
    if s.len() == 0 {
        assert(merge_runs(Seq::<Run>::empty()) =~= Seq::<SpecOp>::empty());
    } else {
        let r = Run { kind: Decision::Keep, old_start: 0, new_start: 0, len: s.len() as int };
        lemma_merge_single(r);
    }
}

proof fn lemma_path_no_new<T: DiffElemSpec>(a: Seq<T>, b: Seq<T>, i: int)
    requires
        0 <= i <= a.len(),
    ensures
        backtrace_path(a, b, i, 0) == uniform_decisions(Decision::Remove, i),
    decreases i,
{
    if i == 0 {
        assert(backtrace_path(a, b, 0, 0) =~= uniform_decisions(Decision::Remove, 0));
    } else {
        lemma_path_no_new(a, b, i - 1);
        assert(backtrace_path(a, b, i, 0) == backtrace_path(a, b, i - 1, 0).push(Decision::Remove));
        assert(uniform_decisions(Decision::Remove, i - 1).push(Decision::Remove)
            =~= uniform_decisions(Decision::Remove, i));
    }
}

proof fn lemma_path_no_old<T: DiffElemSpec>(a: Seq<T>, b: Seq<T>, j: int)
    requires
        0 <= j <= b.len(),
    ensures
        backtrace_path(a, b, 0, j) == uniform_decisions(Decision::Insert, j),
    decreases j,
{
    if j == 0 {
        assert(backtrace_path(a, b, 0, 0) =~= uniform_decisions(Decision::Insert, 0));
    } else {
        lemma_path_no_old(a, b, j - 1);
        assert(backtrace_path(a, b, 0, j) == backtrace_path(a, b, 0, j - 1).push(Decision::Insert));
        assert(uniform_decisions(Decision::Insert, j - 1).push(Decision::Insert)
            =~= uniform_decisions(Decision::Insert, j));
    }
}

/// Disjoint removal: diffing against an empty new side yields one `Remove`
/// covering the whole old side.
pub proof fn lemma_diff_remove_only<T: DiffElemSpec>(a: Seq<T>, b: Seq<T>)
    requires
        b.len() == 0,
    ensures
        a.len() == 0 ==> diff_spec(a, b) == Seq::<SpecOp>::empty(),
        a.len() > 0 ==> diff_spec(a, b) == seq![
            SpecOp::Remove { old_start: 0, new_start: 0, len: a.len() as int },
        ],
{
    lemma_path_no_new(a, b, a.len() as int);
    lemma_group_uniform(Decision::Remove, a.len() as int);
    if a.len() == 0 {
        assert(merge_runs(Seq::<Run>::empty()) =~= Seq::<SpecOp>::empty());
    } else {
        let r = Run { kind: Decision::Remove, old_start: 0, new_start: 0, len: a.len() as int };
        lemma_merge_single(r);
    }
}

/// Disjoint insertion: diffing from an empty old side yields one `Insert`
/// covering the whole new side.
pub proof fn lemma_diff_insert_only<T: DiffElemSpec>(a: Seq<T>, b: Seq<T>)
    requires
        a.len() == 0,
    ensures
        b.len() == 0 ==> diff_spec(a, b) == Seq::<SpecOp>::empty(),
        b.len() > 0 ==> diff_spec(a, b) == seq![
            SpecOp::Insert { old_start: 0, new_start: 0, len: b.len() as int },
        ],
{
    lemma_path_no_old(a, b, b.len() as int);
    lemma_group_uniform(Decision::Insert, b.len() as int);
    if b.len() == 0 {
        assert(merge_runs(Seq::<Run>::empty()) =~= Seq::<SpecOp>::empty());
    } else {
        let r = Run { kind: Decision::Insert, old_start: 0, new_start: 0, len: b.len() as int };
        lemma_merge_single(r);
    }
}

/// Tie-break determinism: the edit script is a function of the two inputs
/// alone, so any two results computed from equal inputs coincide. `diff`
/// promises `ops_view(ops@) == diff_spec(old@, new@)`, from which this gives
/// byte-identical output for repeated calls on identical inputs.
pub proof fn lemma_deterministic<T: DiffElemSpec>(
    a: Seq<T>,
    b: Seq<T>,
    r1: Seq<SpecOp>,
    r2: Seq<SpecOp>,
)
    requires
        r1 == diff_spec(a, b),
        r2 == diff_spec(a, b),
    ensures
        r1 == r2,
{
}

} // verus!

verus! {

/// Reverse a decision list.
#[verifier::loop_isolation(false)]
fn reversed(v: &Vec<Decision>) -> (r: Vec<Decision>)
    ensures
        r@ == v@.reverse(),
{
    let mut r: Vec<Decision> = Vec::new();
    let mut k = v.len();
    while k > 0
        invariant
            k <= v@.len(),
            r@.len() == v@.len() - k,
            forall|x: int| 0 <= x < r@.len() ==> r@[x] == v@[v@.len() - 1 - x],
        decreases k,
    {
        k = k - 1;
        r.push(v[k]);
    }
    proof {
        assert(r@ =~= v@.reverse());
    }
    r
}

/// Walk the table from `(len(a), len(b))` back to the origin, emitting one
/// decision per step; ties favour `Remove`. Returns the decisions in input
/// order.
#[verifier::loop_isolation(false)]
#[verifier::rlimit(100)]
fn backtrace<T: DiffElem>(a: &[T], b: &[T], t: &Vec<Vec<usize>>) -> (d: Vec<Decision>)
    requires
        t@.len() == a@.len() + 1,
        forall|i: int| 0 <= i < t@.len() ==> (#[trigger] t@[i])@.len() == b@.len() + 1,
        forall|i: int, j: int|
            0 <= i < t@.len() && 0 <= j <= b@.len() ==> #[trigger] t@[i]@[j] == lcs_len(
                a@.take(i),
                b@.take(j),
            ),
    ensures
        d@ == backtrace_path(a@, b@, a@.len() as int, b@.len() as int),
{
    let m = a.len();
    let n = b.len();
    let mut i = m;
    let mut j = n;
    let mut rev: Vec<Decision> = Vec::new();
    while i > 0 || j > 0
        invariant
            i <= m,
            j <= n,
            backtrace_path(a@, b@, m as int, n as int) == backtrace_path(a@, b@, i as int, j as int)
                + rev@.reverse(),
        decreases i + j,
    {
        let ghost i0 = i as int;
        let ghost j0 = j as int;
        let ghost rev0 = rev@;
        if i > 0 && j > 0 && a[i - 1].eq_elem(&b[j - 1]) {
            rev.push(Decision::Keep);
            i = i - 1;
            j = j - 1;
            proof {
                assert(backtrace_path(a@, b@, i0, j0) == backtrace_path(a@, b@, i0 - 1, j0
                    - 1).push(Decision::Keep));
            }
        } else if i > 0 && (j == 0 || t[i - 1][j] >= t[i][j - 1]) {
            rev.push(Decision::Remove);
            i = i - 1;
            proof {
                assert(backtrace_path(a@, b@, i0, j0) == backtrace_path(a@, b@, i0 - 1, j0).push(
                    Decision::Remove,
                ));
            }
        } else {
            rev.push(Decision::Insert);
            j = j - 1;
            proof {
                assert(backtrace_path(a@, b@, i0, j0) == backtrace_path(a@, b@, i0, j0 - 1).push(
                    Decision::Insert,
                ));
            }
        }
        proof {
            let dec = rev@.last();
            assert(rev@ == rev0.push(dec));
            assert(rev0.push(dec).reverse() =~= seq![dec] + rev0.reverse());
            assert(backtrace_path(a@, b@, i as int, j as int).push(dec) + rev0.reverse()
                =~= backtrace_path(a@, b@, i as int, j as int) + (seq![dec] + rev0.reverse()));
        }
    }
    proof {
        assert(backtrace_path(a@, b@, 0, 0) =~= Seq::<Decision>::empty());
        assert(Seq::<Decision>::empty() + rev@.reverse() =~= rev@.reverse());
        assert(rev@.reverse().reverse() =~= rev@.reverse().reverse());
    }
    let d = reversed(&rev);
    proof {
        assert(d@ =~= backtrace_path(a@, b@, m as int, n as int));
    }
    d
}

/// A run as the executable pipeline carries it.
#[derive(Clone, Copy)]
struct RawRun {
    kind: Decision,
    old_start: usize,
    new_start: usize,
    len: usize,
}

spec fn raw_run_view(r: RawRun) -> Run {
    Run {
        kind: r.kind,
        old_start: r.old_start as int,
        new_start: r.new_start as int,
        len: r.len as int,
    }
}

spec fn raw_runs_view(rs: Seq<RawRun>) -> Seq<Run> {
    rs.map_values(|r: RawRun| raw_run_view(r))
}

/// Group consecutive identical decisions into maximal runs.
#[verifier::loop_isolation(false)]
#[verifier::rlimit(100)]
fn group(d: &Vec<Decision>) -> (runs: Vec<RawRun>)
    ensures
        raw_runs_view(runs@) == group_runs(d@),
{
    let mut runs: Vec<RawRun> = Vec::new();
    let mut k: usize = 0;
    while k < d.len()
        invariant
            k <= d@.len(),
            raw_runs_view(runs@) == group_runs(d@.take(k as int)),
            runs@.len() > 0 ==> (raw_run_view(runs@.last()).len <= k as int && raw_run_view(runs@.last()).old_end() <= k as int
                && raw_run_view(runs@.last()).new_end() <= k as int),
        decreases d@.len() - k,
    {
        let ghost runs0 = runs@;
        let dec = d[k];
        proof {
            assert(d@.take(k as int + 1).drop_last() =~= d@.take(k as int));
            assert(d@.take(k as int + 1).last() == d@[k as int]);
        }
        if runs.len() > 0 && runs[runs.len() - 1].kind == dec {
            let mut r = runs.pop().unwrap();
            r.len = r.len + 1;
            runs.push(r);
            proof {
                assert(raw_runs_view(runs@) =~= raw_runs_view(runs0).update(
                    runs0.len() - 1,
                    raw_run_view(r),
                ));
            }
        } else {
            let os: usize;
            let ns: usize;
            if runs.len() == 0 {
                os = 0;
                ns = 0;
            } else {
                let last = runs[runs.len() - 1];
                os = if last.kind == Decision::Insert {
                    last.old_start
                } else {
                    last.old_start + last.len
                };
                ns = if last.kind == Decision::Remove {
                    last.new_start
                } else {
                    last.new_start + last.len
                };
            }
            let r = RawRun { kind: dec, old_start: os, new_start: ns, len: 1 };
            runs.push(r);
            proof {
                assert(raw_runs_view(runs@) =~= raw_runs_view(runs0).push(raw_run_view(r)));
            }
        }
        k = k + 1;
    }
    proof {
        assert(d@.take(d@.len() as int) =~= d@);
    }
    runs
}

/// Merge each adjacent remove/insert pair of runs into one `Replace`; every
/// other run becomes its own operation.
#[verifier::loop_isolation(false)]
#[verifier::rlimit(100)]
fn merge(runs: &Vec<RawRun>) -> (ops: Vec<DiffOp>)
    ensures
        ops_view(ops@) == merge_runs(raw_runs_view(runs@)),
{
    let mut ops: Vec<DiffOp> = Vec::new();
    let mut k: usize = 0;
    let ghost rsv = raw_runs_view(runs@);
    proof {
        assert(ops_view(ops@) =~= Seq::<SpecOp>::empty());
        assert(rsv.skip(0) =~= rsv);
        assert(Seq::<SpecOp>::empty() + merge_runs(rsv) =~= merge_runs(rsv));
    }
    while k < runs.len()
        invariant
            k <= runs@.len(),
            merge_runs(rsv) == ops_view(ops@) + merge_runs(rsv.skip(k as int)),
        decreases runs@.len() - k,
    {
        let ghost ops0 = ops@;
        let x = runs[k];
        proof {
            assert(rsv.skip(k as int)[0] == rsv[k as int]);
        }
        if k + 1 < runs.len() && ((x.kind == Decision::Remove && runs[k + 1].kind
            == Decision::Insert) || (x.kind == Decision::Insert && runs[k + 1].kind
            == Decision::Remove)) {
            let y = runs[k + 1];
            proof {
                assert(rsv.skip(k as int)[1] == rsv[k as int + 1]);
                assert(rsv.skip(k as int).skip(2) =~= rsv.skip(k as int + 2));
            }
            let rm = if x.kind == Decision::Remove {
                x
            } else {
                y
            };
            let ins = if x.kind == Decision::Insert {
                x
            } else {
                y
            };
            let op = DiffOp::Replace {
                old_start: rm.old_start,
                old_len: rm.len,
                new_start: ins.new_start,
                new_len: ins.len,
            };
            ops.push(op);
            k = k + 2;
            proof {
                assert(op@ == run_merge(rsv[k as int - 2], rsv[k as int - 1]));
                assert(ops_view(ops@) =~= ops_view(ops0).push(op@));
                assert(ops_view(ops0).push(op@) =~= ops_view(ops0) + seq![op@]);
                assert(ops_view(ops0) + (seq![op@] + merge_runs(rsv.skip(k as int))) =~= (ops_view(
                    ops0,
                ) + seq![op@]) + merge_runs(rsv.skip(k as int)));
            }
        } else {
            let op = match x.kind {
                Decision::Keep => DiffOp::Equal {
                    old_start: x.old_start,
                    new_start: x.new_start,
                    len: x.len,
                },
                Decision::Remove => DiffOp::Remove {
                    old_start: x.old_start,
                    new_start: x.new_start,
                    len: x.len,
                },
                Decision::Insert => DiffOp::Insert {
                    old_start: x.old_start,
                    new_start: x.new_start,
                    len: x.len,
                },
            };
            ops.push(op);
            k = k + 1;
            proof {
                assert(rsv.skip(k as int - 1).skip(1) =~= rsv.skip(k as int));
                assert(op@ == run_op(rsv[k as int - 1]));
                assert(ops_view(ops@) =~= ops_view(ops0).push(op@));
                assert(ops_view(ops0).push(op@) =~= ops_view(ops0) + seq![op@]);
                assert(ops_view(ops0) + (seq![op@] + merge_runs(rsv.skip(k as int))) =~= (ops_view(
                    ops0,
                ) + seq![op@]) + merge_runs(rsv.skip(k as int)));
            }
        }
    }
    proof {
        assert(rsv.skip(rsv.len() as int) =~= Seq::<Run>::empty());
        assert(merge_runs(Seq::<Run>::empty()) =~= Seq::<SpecOp>::empty());
        assert(ops_view(ops@) + Seq::<SpecOp>::empty() =~= ops_view(ops@));
    }
    ops
}

/// Compute the minimal edit script turning `old` into `new`.
///
/// The result is pinned exactly: it equals `diff_spec(old@, new@)`, so
/// repeated calls on identical inputs give identical output. It partitions
/// both inputs into back-to-back ranges, pairs only equivalent elements
/// under `Equal`, leaves no remove/insert pair unmerged and no two adjacent
/// equal-runs, and changes exactly
/// `len(old) + len(new) - 2 * lcs_len(old@, new@)` elements.
pub fn diff_slice<T: DiffElem>(old: &[T], new: &[T]) -> (ops: Vec<DiffOp>)
    ensures
        ops_view(ops@) == diff_spec(old@, new@),
        ops_chained(ops_view(ops@), 0, 0, old@.len() as int, new@.len() as int),
        ops_positive(ops_view(ops@)),
        ops_match(ops_view(ops@), old@, new@),
        ops_coalesced(ops_view(ops@)),
        edit_weight(ops_view(ops@)) == old@.len() + new@.len() - 2 * lcs_len(old@, new@),
{
    let t = crate::lcs::lcs_table(old, new);
    let d = backtrace(old, new, &t);
    let runs = group(&d);
    let ops = merge(&runs);
    proof {
        lemma_diff_spec_props(old@, new@);
    }
    ops
}

/// `diff_slice` over vectors.
pub fn diff<T: DiffElem>(old: &Vec<T>, new: &Vec<T>) -> (ops: Vec<DiffOp>)
    ensures
        ops_view(ops@) == diff_spec(old@, new@),
        ops_chained(ops_view(ops@), 0, 0, old@.len() as int, new@.len() as int),
        ops_positive(ops_view(ops@)),
        ops_match(ops_view(ops@), old@, new@),
        ops_coalesced(ops_view(ops@)),
        edit_weight(ops_view(ops@)) == old@.len() + new@.len() - 2 * lcs_len(old@, new@),
{
    diff_slice(old.as_slice(), new.as_slice())
}

} // verus!

verus! {

/// Every operation of a back-to-back positive script stays inside the two
/// inputs.
pub proof fn lemma_ops_in_bounds(ops: Seq<SpecOp>, i: int, j: int, m: int, n: int)
    requires
        ops_chained(ops, i, j, m, n),
        ops_positive(ops),
        0 <= i,
        0 <= j,
    ensures
        i <= m,
        j <= n,
        forall|k: int|
            0 <= k < ops.len() ==> {
                &&& 0 <= (#[trigger] ops[k]).old_start()
                &&& ops[k].old_start() + ops[k].old_adv() <= m
                &&& 0 <= ops[k].new_start()
                &&& ops[k].new_start() + ops[k].new_adv() <= n
                &&& ops[k].old_adv() >= 0
                &&& ops[k].new_adv() >= 0
            },
    decreases ops.len(),
{
    if ops.len() == 0 {
    } else {
        assert(ops[0].positive());
        assert forall|k: int| 0 <= k < ops.skip(1).len() implies (#[trigger] ops.skip(
            1,
        )[k]).positive() by {
            assert(ops.skip(1)[k] == ops[k + 1]);
        }
        lemma_ops_in_bounds(ops.skip(1), i + ops[0].old_adv(), j + ops[0].new_adv(), m, n);
        assert forall|k: int|
            0 <= k < ops.len() implies {
            &&& 0 <= (#[trigger] ops[k]).old_start()
            &&& ops[k].old_start() + ops[k].old_adv() <= m
            &&& 0 <= ops[k].new_start()
            &&& ops[k].new_start() + ops[k].new_adv() <= n
            &&& ops[k].old_adv() >= 0
            &&& ops[k].new_adv() >= 0
        } by {
            if k > 0 {
                assert(ops[k] == ops.skip(1)[k - 1]);
            }
        }
    }
}

} // verus!
