//! The escape-time kernel's bookkeeping.
//!
//! An orbit starts at zero and is advanced by `z <- z * z + c`. Before each
//! advance the caller tests whether the current point has left the disc of
//! divergence, and reports the outcome as a flag: `true` when it has. A point
//! that sits exactly on the rim has not left, and a test that cannot be
//! decided counts as having left. The kernel turns the flags of an orbit into
//! its escape time: the number of points that were seen before the first one
//! that had left, counted up to `MAX_ITER` and no further.
//!
//! A batch advances `LANES` orbits in lockstep. Every lane is tested at every
//! step; a lane that has left is marked, stays marked, and its count stands
//! still while the others go on.

use vstd::prelude::*;
use crate::frame::LANES;

verus! {

/// The most steps an orbit is followed for. A point whose orbit lasts that
/// long is taken to belong to the set.
pub const MAX_ITER: u32 = 256;

/// No flag among the first `n` is raised.
pub open spec fn quiet_before(flags: Seq<bool>, n: int) -> bool {
    forall|j: int| 0 <= j < n ==> !#[trigger] flags[j]
}

/// The position of the first raised flag at or after `from`, or the number of
/// flags where none is raised.
pub open spec fn first_raised(flags: Seq<bool>, from: int) -> int
    decreases flags.len() - from,
{
    if from < 0 || from >= flags.len() || flags[from] {
        from
    } else {
        first_raised(flags, from + 1)
    }
}

/// The escape time of an orbit with these flags: the position of the first
/// raised flag, and `MAX_ITER` where that would be more.
pub open spec fn escape_time(flags: Seq<bool>) -> nat {
    let first = first_raised(flags, 0);
    if first < MAX_ITER {
        first as nat
    } else {
        MAX_ITER as nat
    }
}

/// The steps that are taken at most on an orbit of which `len` flags are
/// known.
pub open spec fn horizon(len: int) -> int {
    if len < MAX_ITER {
        len
    } else {
        MAX_ITER as int
    }
}

/// What `first_raised` finds: nothing is raised before it, and it is raised
/// itself unless the flags ran out.
pub proof fn lemma_first_raised(flags: Seq<bool>, from: int)
    requires
        0 <= from <= flags.len(),
    ensures
        from <= first_raised(flags, from) <= flags.len(),
        forall|j: int| from <= j < first_raised(flags, from) ==> !#[trigger] flags[j],
        first_raised(flags, from) < flags.len() ==> flags[first_raised(flags, from)],
    decreases flags.len() - from,
{
    if from < flags.len() && !flags[from] {
        lemma_first_raised(flags, from + 1);
    }
}

/// The escape time is the one number `k` within the horizon before which
/// nothing is raised and which is either raised itself or the horizon.
pub proof fn lemma_escape_time_is(flags: Seq<bool>, k: int)
    requires
        0 <= k <= horizon(flags.len() as int),
        quiet_before(flags, k),
        k < horizon(flags.len() as int) ==> flags[k],
    ensures
        escape_time(flags) == k,
{
    lemma_first_raised(flags, 0);
    let first = first_raised(flags, 0);
    if first < k {
        assert(!flags[first]);
    }
}

/// The escape time meets its own description.
pub proof fn lemma_escape_time_bounds(flags: Seq<bool>)
    ensures
        escape_time(flags) <= horizon(flags.len() as int),
        quiet_before(flags, escape_time(flags) as int),
        escape_time(flags) < horizon(flags.len() as int) ==> flags[escape_time(flags) as int],
{
    lemma_first_raised(flags, 0);
}

/// An orbit that never leaves is followed to the end: where none of the first
/// `MAX_ITER` flags is raised, the escape time is `MAX_ITER`.
pub proof fn lemma_quiet_orbit_lasts(flags: Seq<bool>)
    requires
        flags.len() >= MAX_ITER,
        quiet_before(flags, MAX_ITER as int),
    ensures
        escape_time(flags) == MAX_ITER,
{
    lemma_escape_time_is(flags, MAX_ITER as int);
}

/// An orbit that has left by step `j` has an escape time of `j` at most.
pub proof fn lemma_raised_flag_bounds(flags: Seq<bool>, j: int)
    requires
        0 <= j < flags.len(),
        flags[j],
    ensures
        escape_time(flags) <= j,
{
    lemma_escape_time_bounds(flags);
}

/// Computes the escape time of a single orbit from its flags: the reference
/// that a batch is measured against.
pub fn escape_time_of(flags: &[bool]) -> (k: u32)
    ensures
        k == escape_time(flags@),
{
    let mut k: u32 = 0;
    while k < MAX_ITER && (k as usize) < flags.len() && !flags[k as usize]
        invariant
            k <= MAX_ITER,
            k <= flags@.len(),
            quiet_before(flags@, k as int),
        decreases MAX_ITER - k,
    {
        k += 1;
    }
    proof {
        lemma_escape_time_is(flags@, k as int);
    }
    k
}

/// The state of a batch, as contracts see it.
pub struct BatchState {
    /// Steps taken so far.
    pub steps: nat,
    /// Each lane's count.
    pub counts: Seq<nat>,
    /// Each lane's mark: whether its orbit has left.
    pub escaped: Seq<bool>,
}

impl BatchState {
    /// A batch before its first step.
    pub open spec fn initial() -> BatchState {
        BatchState {
            steps: 0,
            counts: Seq::new(LANES as nat, |i: int| 0nat),
            escaped: Seq::new(LANES as nat, |i: int| false),
        }
    }

    /// What holds of every batch: a lane counts the steps it was unmarked
    /// for, so an unmarked lane has counted them all.
    pub open spec fn wf(self) -> bool {
        &&& self.steps <= MAX_ITER
        &&& self.counts.len() == LANES
        &&& self.escaped.len() == LANES
        &&& forall|i: int| 0 <= i < LANES ==> (#[trigger] self.counts[i]) <= self.steps
        &&& forall|i: int|
            0 <= i < LANES && !(#[trigger] self.escaped[i]) ==> self.counts[i] == self.steps
    }

    /// Every lane is marked.
    pub open spec fn all_escaped(self) -> bool {
        forall|i: int| 0 <= i < LANES ==> #[trigger] self.escaped[i]
    }

    /// Nothing is left to do: every lane is marked, or `MAX_ITER` steps were
    /// taken.
    pub open spec fn done(self) -> bool {
        self.steps >= MAX_ITER || self.all_escaped()
    }

    /// One step with the flags `exceeds`, one for each lane. A lane is marked
    /// if it was or if its flag is raised, and counts the step only if it is
    /// still unmarked then. After `MAX_ITER` steps nothing changes any more.
    pub open spec fn after(self, exceeds: Seq<bool>) -> BatchState {
        if self.steps >= MAX_ITER {
            self
        } else {
            BatchState {
                steps: self.steps + 1,
                counts: Seq::new(
                    LANES as nat,
                    |i: int|
                        if self.escaped[i] || exceeds[i] {
                            self.counts[i]
                        } else {
                            self.counts[i] + 1
                        },
                ),
                escaped: Seq::new(LANES as nat, |i: int| self.escaped[i] || exceeds[i]),
            }
        }
    }

    /// The batch after one step for each row of flags, from the first row on.
    pub open spec fn fed(rows: Seq<[bool; 8]>) -> BatchState
        decreases rows.len(),
    {
        if rows.len() == 0 {
            BatchState::initial()
        } else {
            BatchState::fed(rows.drop_last()).after(rows.last()@)
        }
    }
}

/// The flags of one lane, picked from the rows that a batch is fed.
pub open spec fn column(rows: Seq<[bool; 8]>, lane: int) -> Seq<bool> {
    Seq::new(rows.len(), |j: int| rows[j][lane])
}

/// A batch of `LANES` orbits that are advanced together.
#[derive(Clone, Copy, Debug)]
pub struct LaneBatch {
    steps: u32,
    counts: [u32; 8],
    escaped: [bool; 8],
}

impl View for LaneBatch {
    type V = BatchState;

    closed spec fn view(&self) -> BatchState {
        BatchState {
            steps: self.steps as nat,
            counts: Seq::new(LANES as nat, |i: int| self.counts[i] as nat),
            escaped: self.escaped@,
        }
    }
}

impl LaneBatch {
    #[verifier::type_invariant]
    spec fn inv(self) -> bool {
        self@.wf()
    }

    /// A batch before its first step: no lane is marked, every count is zero.
    pub fn new() -> (b: LaneBatch)
        ensures
            b@ == BatchState::initial(),
            b@.wf(),
    {
        let b = LaneBatch { steps: 0, counts: [0u32; 8], escaped: [false; 8] };
        assert(b@.counts =~= BatchState::initial().counts);
        assert(b@.escaped =~= BatchState::initial().escaped);
        b
    }

    /// Takes one step with the divergence flags of the lanes' current points,
    /// and says whether another step is needed.
    pub fn step(&mut self, exceeds: &[bool; 8]) -> (more: bool)
        ensures
            final(self)@ == old(self)@.after(exceeds@),
            final(self)@.wf(),
            more == !final(self)@.done(),
    {
        proof {
            use_type_invariant(&*self);
        }
        if self.steps >= MAX_ITER {
            return false;
        }
        let ghost before = self@;
        let mut counts: [u32; 8] = self.counts;
        let mut escaped: [bool; 8] = self.escaped;
        let mut open_lanes: bool = false;
        let mut i: usize = 0;
        while i < LANES
            invariant
                i <= LANES,
                before.wf(),
                before.steps < MAX_ITER,
                before == old(self)@,
                forall|j: int| 0 <= j < LANES ==> old(self).counts[j] == #[trigger] before.counts[j],
                forall|j: int| 0 <= j < LANES ==> old(self).escaped[j] == #[trigger] before.escaped[j],
                forall|j: int|
                    0 <= j < i ==> #[trigger] escaped[j] == (before.escaped[j] || exceeds[j]),
                forall|j: int|
                    0 <= j < i ==> #[trigger] counts[j] == before.after(exceeds@).counts[j],
                forall|j: int| i <= j < LANES ==> #[trigger] escaped[j] == before.escaped[j],
                forall|j: int| i <= j < LANES ==> #[trigger] counts[j] == before.counts[j],
                open_lanes ==> exists|j: int| 0 <= j < i && !#[trigger] escaped[j],
                !open_lanes ==> forall|j: int| 0 <= j < i ==> #[trigger] escaped[j],
            decreases LANES - i,
        {
            let ghost seen = escaped;
            if escaped[i] || exceeds[i] {
                escaped[i] = true;
                proof {
                    if open_lanes {
                        let j = choose|j: int| 0 <= j < i && !#[trigger] seen[j];
                        assert(!escaped[j]);
                    }
                }
            } else {
                counts[i] = counts[i] + 1;
                open_lanes = true;
                assert(!escaped[i as int]);
            }
            i += 1;
        }
        let steps: u32 = self.steps + 1;
        let ghost next = before.after(exceeds@);
        let stepped = LaneBatch { steps, counts, escaped };
        proof {
            assert(stepped@.counts =~= next.counts);
            assert(stepped@.escaped =~= next.escaped);
            assert(stepped@ == next);
            if open_lanes {
                let j = choose|j: int| 0 <= j < LANES && !#[trigger] escaped[j];
                assert(!stepped@.escaped[j]);
            }
        }
        *self = stepped;
        open_lanes && steps < MAX_ITER
    }

    /// The steps taken so far.
    pub fn steps(&self) -> (n: u32)
        ensures
            n == self@.steps,
            n <= MAX_ITER,
    {
        proof {
            use_type_invariant(self);
        }
        self.steps
    }

    /// The count of one lane.
    pub fn count(&self, lane: usize) -> (k: u32)
        requires
            lane < LANES,
        ensures
            k == self@.counts[lane as int],
            k <= MAX_ITER,
    {
        proof {
            use_type_invariant(self);
        }
        self.counts[lane]
    }

    /// The counts of all lanes.
    pub fn counts(&self) -> (ks: [u32; 8])
        ensures
            forall|i: int| 0 <= i < LANES ==> #[trigger] ks[i] == self@.counts[i],
            forall|i: int| 0 <= i < LANES ==> #[trigger] ks[i] <= MAX_ITER,
    {
        proof {
            use_type_invariant(self);
            assert forall|i: int| 0 <= i < LANES implies #[trigger] self.counts[i] <= MAX_ITER by {
                assert(self@.counts[i] <= self@.steps);
            }
        }
        self.counts
    }

    /// Whether one lane is marked.
    pub fn escaped(&self, lane: usize) -> (e: bool)
        requires
            lane < LANES,
        ensures
            e == self@.escaped[lane as int],
    {
        self.escaped[lane]
    }

    /// Whether every lane is marked.
    pub fn all_escaped(&self) -> (all: bool)
        ensures
            all == self@.all_escaped(),
    {
        let mut i: usize = 0;
        while i < LANES
            invariant
                i <= LANES,
                forall|j: int| 0 <= j < i ==> #[trigger] self.escaped[j],
            decreases LANES - i,
        {
            if !self.escaped[i] {
                assert(!self@.escaped[i as int]);
                return false;
            }
            i += 1;
        }
        true
    }

    /// Whether nothing is left to do.
    pub fn is_done(&self) -> (done: bool)
        ensures
            done == self@.done(),
    {
        self.steps >= MAX_ITER || self.all_escaped()
    }
}

/// Feeding a batch keeps it well formed.
pub proof fn lemma_fed_wf(rows: Seq<[bool; 8]>)
    ensures
        BatchState::fed(rows).wf(),
        BatchState::fed(rows).steps == horizon(rows.len() as int),
    decreases rows.len(),
{
    if rows.len() > 0 {
        lemma_fed_wf(rows.drop_last());
    }
}

/// The mask only grows: a marked lane stays marked, and its count is frozen.
pub proof fn lemma_mark_stays(state: BatchState, exceeds: Seq<bool>, lane: int)
    requires
        state.wf(),
        0 <= lane < LANES,
        state.escaped[lane],
    ensures
        state.after(exceeds).escaped[lane],
        state.after(exceeds).counts[lane] == state.counts[lane],
{
}

/// Stopping once every lane is marked loses nothing: a step on a batch that
/// is done changes no count and no mark, and leaves it done.
pub proof fn lemma_done_is_final(state: BatchState, exceeds: Seq<bool>)
    requires
        state.wf(),
        state.done(),
    ensures
        state.after(exceeds).counts == state.counts,
        state.after(exceeds).escaped == state.escaped,
        state.after(exceeds).done(),
        state.after(exceeds).wf(),
{
    let next = state.after(exceeds);
    if state.steps < MAX_ITER {
        assert forall|i: int| 0 <= i < LANES implies #[trigger] next.escaped[i] by {
            assert(state.escaped[i]);
        }
        assert(next.counts =~= state.counts);
        assert(next.escaped =~= state.escaped);
    }
}

/// A batch that is done after the first `n` rows ends with the counts it has
/// then, whatever the later rows hold.
pub proof fn lemma_done_early(rows: Seq<[bool; 8]>, n: int)
    requires
        0 <= n <= rows.len(),
        BatchState::fed(rows.take(n)).done(),
    ensures
        BatchState::fed(rows).counts == BatchState::fed(rows.take(n)).counts,
        BatchState::fed(rows).escaped == BatchState::fed(rows.take(n)).escaped,
        BatchState::fed(rows).done(),
    decreases rows.len(),
{
    if n == rows.len() {
        assert(rows.take(n) =~= rows);
    } else {
        let shorter = rows.drop_last();
        assert(shorter.take(n) =~= rows.take(n));
        lemma_done_early(shorter, n);
        lemma_fed_wf(shorter);
        lemma_done_is_final(BatchState::fed(shorter), rows.last()@);
    }
}

/// Lanes do not interact, and a batch counts as the reference does: after any
/// rows of flags, each lane's count is the escape time of its own column, and
/// the lane is marked exactly if a flag of its column was raised within the
/// steps taken.
pub proof fn lemma_batch_matches_scalar(rows: Seq<[bool; 8]>, lane: int)
    requires
        0 <= lane < LANES,
    ensures
        BatchState::fed(rows).counts[lane] == escape_time(column(rows, lane)),
        BatchState::fed(rows).escaped[lane] == !quiet_before(
            column(rows, lane),
            horizon(rows.len() as int),
        ),
    decreases rows.len(),
{
    let col = column(rows, lane);
    if rows.len() == 0 {
        lemma_escape_time_is(col, 0);
    } else {
        let shorter = rows.drop_last();
        let before = BatchState::fed(shorter);
        let short_col = column(shorter, lane);
        let len = shorter.len() as int;
        let flag = rows.last()[lane];
        lemma_batch_matches_scalar(shorter, lane);
        lemma_fed_wf(shorter);
        lemma_escape_time_bounds(short_col);
        let k = escape_time(short_col) as int;
        assert(col.len() == len + 1);
        assert(forall|j: int| 0 <= j < len ==> col[j] == short_col[j]);
        assert(col[len] == flag);
        assert(rows.last()@[lane] == flag);
        if len >= MAX_ITER {
            lemma_escape_time_is(col, k);
            if !quiet_before(col, MAX_ITER as int) {
                let j = choose|j: int| 0 <= j < MAX_ITER && col[j];
                assert(short_col[j]);
            }
            if !quiet_before(short_col, MAX_ITER as int) {
                let j = choose|j: int| 0 <= j < MAX_ITER && short_col[j];
                assert(col[j]);
            }
        } else if before.escaped[lane] {
            let j = choose|j: int| 0 <= j < len && short_col[j];
            assert(col[j]);
            if k == len {
                assert(!short_col[j]);
            }
            lemma_escape_time_is(col, k);
        } else if flag {
            assert(before.counts[lane] == len);
            lemma_escape_time_is(col, len);
        } else {
            assert(before.counts[lane] == len);
            assert forall|j: int| 0 <= j < len + 1 implies !#[trigger] col[j] by {
                if j < len {
                    assert(!short_col[j]);
                }
            }
            lemma_escape_time_is(col, len + 1);
        }
    }
}

/// The rows that `advance` hands out along a chain of states from `start`:
/// each state yields the flags of its lanes and the state that follows.
pub open spec fn traced<S, A: Fn(S) -> (S, [bool; 8])>(
    advance: A,
    start: S,
    states: Seq<S>,
    rows: Seq<[bool; 8]>,
) -> bool {
    &&& states.len() == rows.len() + 1
    &&& states[0] == start
    &&& forall|j: int|
        0 <= j < rows.len() ==> call_ensures(advance, (states[j],), (states[j + 1], #[trigger] rows[j]))
}

/// `ks` are the escape times of a batch that `advance` drives from `start`:
/// the batch was stepped until it was done and no longer, and each lane's
/// count is the escape time of the flags that the lane was handed.
pub open spec fn ran<S, A: Fn(S) -> (S, [bool; 8])>(advance: A, start: S, ks: [u32; 8]) -> bool {
    exists|states: Seq<S>, rows: Seq<[bool; 8]>|
        {
            &&& #[trigger] traced(advance, start, states, rows)
            &&& BatchState::fed(rows).done()
            &&& forall|n: int| 0 <= n < rows.len() ==> !(#[trigger] BatchState::fed(rows.take(n))).done()
            &&& forall|lane: int|
                0 <= lane < LANES ==> #[trigger] ks[lane] == escape_time(column(rows, lane))
        }
}

/// `advance` takes every state that it returns.
pub open spec fn keeps_going<S, A: Fn(S) -> (S, [bool; 8])>(advance: A) -> bool {
    forall|s: S, r: (S, [bool; 8])|
        call_requires(advance, (s,)) && #[trigger] call_ensures(advance, (s,), r)
            ==> call_requires(advance, (r.0,))
}

/// The kernel: follows a batch of orbits from `start` and returns the lanes'
/// escape times. What an orbit is made of is the caller's business; `advance`
/// tests the current points, moves every lane on by one step whether it has
/// left or not, and is called until the batch is done.
pub fn run<S, A>(start: S, advance: &A) -> (ks: [u32; 8]) where A: Fn(S) -> (S, [bool; 8])
    requires
        call_requires(*advance, (start,)),
        keeps_going(*advance),
    ensures
        ran(*advance, start, ks),
{
    let ghost mut states: Seq<S> = seq![start];
    let ghost mut rows: Seq<[bool; 8]> = Seq::empty();
    let mut batch = LaneBatch::new();
    let mut state = start;
    let mut more: bool = true;
    assert(!batch@.escaped[0]);
    while more
        invariant
            keeps_going(*advance),
            call_requires(*advance, (state,)),
            traced(*advance, start, states, rows),
            states.last() == state,
            batch@ == BatchState::fed(rows),
            batch@.wf(),
            more == !batch@.done(),
            forall|n: int| 0 <= n < rows.len() ==> !(#[trigger] BatchState::fed(rows.take(n))).done(),
        decreases MAX_ITER - batch@.steps,
    {
        let ghost before = rows;
        let ghost seen = states;
        let (next, exceeds) = advance(state);
        more = batch.step(&exceeds);
        proof {
            rows = before.push(exceeds);
            states = seen.push(next);
            assert(rows.drop_last() =~= before);
            assert(rows.take(before.len() as int) =~= before);
            assert forall|n: int| 0 <= n < rows.len() implies !(#[trigger] BatchState::fed(
                rows.take(n),
            )).done() by {
                if n < before.len() {
                    assert(rows.take(n) =~= before.take(n));
                }
            }
            assert forall|j: int| 0 <= j < rows.len() implies call_ensures(
                *advance,
                (states[j],),
                (states[j + 1], #[trigger] rows[j]),
            ) by {
                if j < before.len() {
                    assert(rows[j] == before[j]);
                    assert(states[j] == seen[j]);
                    assert(states[j + 1] == seen[j + 1]);
                }
            }
        }
        state = next;
    }
    let ks = batch.counts();
    proof {
        assert forall|lane: int| 0 <= lane < LANES implies #[trigger] ks[lane] == escape_time(
            column(rows, lane),
        ) by {
            lemma_batch_matches_scalar(rows, lane);
        }
        assert(traced(*advance, start, states, rows));
    }
    ks
}

/// `advance` is a function: a state has one successor and one row of flags.
pub open spec fn single_valued<S, A: Fn(S) -> (S, [bool; 8])>(advance: A) -> bool {
    forall|s: S, r1: (S, [bool; 8]), r2: (S, [bool; 8])|
        #![trigger call_ensures(advance, (s,), r1), call_ensures(advance, (s,), r2)]
        call_ensures(advance, (s,), r1) && call_ensures(advance, (s,), r2) ==> r1 == r2
}

/// Two chains that a single-valued `advance` makes from one start agree as
/// far as both go.
pub proof fn lemma_traces_agree<S, A: Fn(S) -> (S, [bool; 8])>(
    advance: A,
    start: S,
    states1: Seq<S>,
    rows1: Seq<[bool; 8]>,
    states2: Seq<S>,
    rows2: Seq<[bool; 8]>,
    n: int,
)
    requires
        single_valued(advance),
        traced(advance, start, states1, rows1),
        traced(advance, start, states2, rows2),
        0 <= n <= rows1.len(),
        n <= rows2.len(),
    ensures
        states1[n] == states2[n],
        rows1.take(n) == rows2.take(n),
    decreases n,
{
    if n == 0 {
        assert(rows1.take(0) =~= rows2.take(0));
    } else {
        lemma_traces_agree(advance, start, states1, rows1, states2, rows2, n - 1);
        let r1 = (states1[n], rows1[n - 1]);
        let r2 = (states2[n], rows2[n - 1]);
        assert(call_ensures(advance, (states1[n - 1],), r1));
        assert(call_ensures(advance, (states2[n - 1],), r2));
        assert(r1 == r2);
        assert(rows1.take(n) =~= rows1.take(n - 1).push(rows1[n - 1]));
        assert(rows2.take(n) =~= rows2.take(n - 1).push(rows2[n - 1]));
    }
}

/// The kernel is reproducible: with a single-valued `advance`, a start has one
/// outcome, so a second run returns what the first did.
pub proof fn lemma_run_is_reproducible<S, A: Fn(S) -> (S, [bool; 8])>(
    advance: A,
    start: S,
    ks1: [u32; 8],
    ks2: [u32; 8],
)
    requires
        single_valued(advance),
        ran(advance, start, ks1),
        ran(advance, start, ks2),
    ensures
        ks1 == ks2,
{
    let (states1, rows1): (Seq<S>, Seq<[bool; 8]>) = choose|states: Seq<S>, rows: Seq<[bool; 8]>|
        {
            &&& #[trigger] traced(advance, start, states, rows)
            &&& BatchState::fed(rows).done()
            &&& forall|n: int|
                0 <= n < rows.len() ==> !(#[trigger] BatchState::fed(rows.take(n))).done()
            &&& forall|lane: int|
                0 <= lane < LANES ==> #[trigger] ks1[lane] == escape_time(column(rows, lane))
        };
    let (states2, rows2): (Seq<S>, Seq<[bool; 8]>) = choose|states: Seq<S>, rows: Seq<[bool; 8]>|
        {
            &&& #[trigger] traced(advance, start, states, rows)
            &&& BatchState::fed(rows).done()
            &&& forall|n: int|
                0 <= n < rows.len() ==> !(#[trigger] BatchState::fed(rows.take(n))).done()
            &&& forall|lane: int|
                0 <= lane < LANES ==> #[trigger] ks2[lane] == escape_time(column(rows, lane))
        };
    let len1 = rows1.len() as int;
    let len2 = rows2.len() as int;
    assert(rows1.take(len1) =~= rows1);
    assert(rows2.take(len2) =~= rows2);
    if len1 < len2 {
        lemma_traces_agree(advance, start, states1, rows1, states2, rows2, len1);
        assert(!BatchState::fed(rows2.take(len1)).done());
    } else if len2 < len1 {
        lemma_traces_agree(advance, start, states1, rows1, states2, rows2, len2);
        assert(!BatchState::fed(rows1.take(len2)).done());
    } else {
        lemma_traces_agree(advance, start, states1, rows1, states2, rows2, len1);
    }
    assert(rows1 == rows2);
    assert forall|lane: int| 0 <= lane < LANES implies ks1[lane] == ks2[lane] by {
        assert(ks1[lane] == escape_time(column(rows1, lane)));
        assert(ks2[lane] == escape_time(column(rows2, lane)));
    }
    assert(ks1 =~= ks2);
}

} // verus!
