//! The decisions of the truncated SVD by Lanczos iteration: which operator
//! to iterate on, how many steps to take, when the expansion ends, and
//! which singular values survive. The arithmetic on vectors is the
//! caller's; it reports what it found and is told what to do next.

use vstd::prelude::*;

verus! {

/// The number of Lanczos steps at most, where the caller sets no other
/// bound.
pub const DEFAULT_MAX_ITERATIONS: usize = 200;

/// The smaller of two numbers.
pub open spec fn least(a: int, b: int) -> int {
    if a <= b {
        a
    } else {
        b
    }
}

/// The shape of a Lanczos run on a matrix of `n_terms` rows and `n_docs`
/// columns.
#[derive(Clone, Copy, Debug, PartialEq, Eq, Structural)]
pub struct LanczosPlan {
    /// Whether the run iterates on the Gram matrix of the documents (the
    /// columns), of dimension `n_docs`; otherwise on that of the terms.
    pub on_documents: bool,
    /// The dimension of the Krylov vectors.
    pub dim: usize,
    /// The number of singular triplets asked for, clamped to `dim`.
    pub rank: usize,
    /// The number of Lanczos steps to take at most.
    pub steps: usize,
}

impl LanczosPlan {
    /// Whether this is the plan for the given matrix shape, requested rank
    /// and iteration bound: the smaller Gram matrix is chosen, the documents'
    /// on a tie; the rank is clamped to its dimension; the steps are twice
    /// the rank, but no more than the dimension or the bound.
    pub open spec fn fits(&self, n_terms: int, n_docs: int, k: int, max_iter: int) -> bool {
        &&& self.on_documents == (n_docs <= n_terms)
        &&& self.dim == least(n_terms, n_docs)
        &&& self.rank == least(k, self.dim as int)
        &&& self.steps == least(least(2 * self.rank, self.dim as int), max_iter)
    }
}

/// Plans a run. A rank above the dimension is clamped, never refused.
pub fn plan(n_terms: usize, n_docs: usize, k: usize, max_iter: usize) -> (p: LanczosPlan)
    ensures
        p.fits(n_terms as int, n_docs as int, k as int, max_iter as int),
        p.rank <= k,
        p.rank <= n_terms,
        p.rank <= n_docs,
        p.steps <= max_iter,
{
    let on_documents = n_docs <= n_terms;
    let dim = if on_documents {
        n_docs
    } else {
        n_terms
    };
    let rank = if k <= dim {
        k
    } else {
        dim
    };
    let doubled = if rank > dim / 2 {
        dim
    } else {
        2 * rank
    };
    let steps = if doubled <= max_iter {
        doubled
    } else {
        max_iter
    };
    LanczosPlan { on_documents, dim, rank, steps }
}

/// Where a run stands.
#[derive(Clone, Copy, Debug, PartialEq, Eq, Structural)]
pub enum LanczosState {
    /// The start vector has not been drawn.
    Initialising,
    /// `step` steps are done and the next is due.
    Expanding { step: usize },
    /// All planned steps are done.
    Converged { steps: usize },
    /// The residual vanished after `steps` steps; the basis ends there.
    Degenerate { steps: usize },
}

/// What the caller reports.
#[derive(Clone, Copy, Debug, PartialEq, Eq, Structural)]
pub enum LanczosEvent {
    /// The unit start vector is drawn.
    Started,
    /// A step is done; `negligible` says that the norm of its residual is
    /// below the tolerance or not finite.
    Residual { negligible: bool },
}

/// What the caller is to do.
#[derive(Clone, Copy, Debug, PartialEq, Eq, Structural)]
pub enum LanczosAction {
    /// Draw the start vector.
    Start,
    /// Take the step of index `step`.
    Iterate { step: usize },
    /// Solve the tridiagonal eigenproblem of the given size.
    Solve { size: usize },
}

/// Whether `state` can occur in a run of at most `steps` steps.
pub open spec fn state_valid(steps: int, state: LanczosState) -> bool {
    match state {
        LanczosState::Initialising => true,
        LanczosState::Expanding { step } => step < steps,
        LanczosState::Converged { steps: done } => done == steps,
        LanczosState::Degenerate { steps: done } => 1 <= done <= steps,
    }
}

/// The state after an event. A run starts on `Started`; each residual
/// ends a step, and ends the run when it is negligible or the last planned
/// step is done. Events that do not fit the state leave it.
pub open spec fn next_state(steps: int, state: LanczosState, event: LanczosEvent) -> LanczosState {
    match (state, event) {
        (LanczosState::Initialising, LanczosEvent::Started) => if steps == 0 {
            LanczosState::Converged { steps: 0 }
        } else {
            LanczosState::Expanding { step: 0 }
        },
        (LanczosState::Expanding { step }, LanczosEvent::Residual { negligible }) => if negligible {
            LanczosState::Degenerate { steps: (step + 1) as usize }
        } else if step + 1 == steps {
            LanczosState::Converged { steps: (step + 1) as usize }
        } else {
            LanczosState::Expanding { step: (step + 1) as usize }
        },
        _ => state,
    }
}

/// How many events a run in `state` can still take before it ends.
pub open spec fn events_left(steps: int, state: LanczosState) -> int {
    match state {
        LanczosState::Initialising => steps + 1,
        LanczosState::Expanding { step } => steps - step,
        LanczosState::Converged { .. } => 0,
        LanczosState::Degenerate { .. } => 0,
    }
}

/// Whether `event` is the one that `state` waits for.
pub open spec fn expects(state: LanczosState, event: LanczosEvent) -> bool {
    match (state, event) {
        (LanczosState::Initialising, LanczosEvent::Started) => true,
        (LanczosState::Expanding { .. }, LanczosEvent::Residual { .. }) => true,
        _ => false,
    }
}

/// Tells whether `state` can occur in a run of the plan.
pub fn state_is_valid(plan: &LanczosPlan, state: LanczosState) -> (ok: bool)
    ensures
        ok == state_valid(plan.steps as int, state),
{
    match state {
        LanczosState::Initialising => true,
        LanczosState::Expanding { step } => step < plan.steps,
        LanczosState::Converged { steps } => steps == plan.steps,
        LanczosState::Degenerate { steps } => 1 <= steps && steps <= plan.steps,
    }
}

/// Moves a run on by one event.
pub fn advance(plan: &LanczosPlan, state: LanczosState, event: LanczosEvent) -> (next: LanczosState)
    requires
        state_valid(plan.steps as int, state),
    ensures
        next == next_state(plan.steps as int, state, event),
        state_valid(plan.steps as int, next),
{
    match state {
        LanczosState::Initialising => match event {
            LanczosEvent::Started => if plan.steps == 0 {
                LanczosState::Converged { steps: 0 }
            } else {
                LanczosState::Expanding { step: 0 }
            },
            LanczosEvent::Residual { .. } => state,
        },
        LanczosState::Expanding { step } => match event {
            LanczosEvent::Residual { negligible } => if negligible {
                LanczosState::Degenerate { steps: step + 1 }
            } else if step + 1 == plan.steps {
                LanczosState::Converged { steps: step + 1 }
            } else {
                LanczosState::Expanding { step: step + 1 }
            },
            LanczosEvent::Started => state,
        },
        LanczosState::Converged { .. } => state,
        LanczosState::Degenerate { .. } => state,
    }
}

/// What is to be done in a state.
pub fn action_for(state: LanczosState) -> (action: LanczosAction)
    ensures
        action == match state {
            LanczosState::Initialising => LanczosAction::Start,
            LanczosState::Expanding { step } => LanczosAction::Iterate { step },
            LanczosState::Converged { steps } => LanczosAction::Solve { size: steps },
            LanczosState::Degenerate { steps } => LanczosAction::Solve { size: steps },
        },
{
    match state {
        LanczosState::Initialising => LanczosAction::Start,
        LanczosState::Expanding { step } => LanczosAction::Iterate { step },
        LanczosState::Converged { steps } => LanczosAction::Solve { size: steps },
        LanczosState::Degenerate { steps } => LanczosAction::Solve { size: steps },
    }
}

/// Every run ends: an expected event keeps the state valid and brings the
/// end nearer, so a run takes at most `steps + 1` events, and the size it
/// ends with is never above the planned number of steps.
pub proof fn lemma_run_ends(steps: int, state: LanczosState, event: LanczosEvent)
    requires
        0 <= steps <= usize::MAX,
        state_valid(steps, state),
        expects(state, event),
    ensures
        state_valid(steps, next_state(steps, state, event)),
        0 <= events_left(steps, next_state(steps, state, event)) < events_left(steps, state),
{
}

/// Whether a run that took its steps through `step` can have ended in
/// `end`: every step before the last reported a residual that was not
/// negligible, and the last reported a negligible one exactly when the run
/// ended degenerate.
pub open spec fn ended<F: Fn(usize) -> bool>(steps: int, step: F, end: LanczosState) -> bool {
    match end {
        LanczosState::Converged { steps: done } => done == steps && forall|i: usize|
            i < done ==> #[trigger] step.ensures((i,), false),
        LanczosState::Degenerate { steps: done } => 1 <= done <= steps && step.ensures(
            ((done - 1) as usize,),
            true,
        ) && forall|i: usize| i < done - 1 ==> #[trigger] step.ensures((i,), false),
        _ => false,
    }
}

/// Runs the expansion: has the start vector drawn by `start`, then has
/// `step` take one Lanczos step after the other, until the planned steps
/// are done or a step reports a negligible residual. `step` is given the
/// index of the step and tells whether the residual was negligible. The
/// state returned is the one in which the eigenproblem is to be solved.
pub fn run<S, F>(plan: &LanczosPlan, start: S, step: F) -> (end: LanczosState) where
    S: FnOnce() -> (),
    F: Fn(usize) -> bool,

    requires
        start.requires(()),
        forall|i: usize| i < plan.steps ==> #[trigger] step.requires((i,)),
    ensures
        ended(plan.steps as int, step, end),
{
    start();
    let mut state = advance(plan, LanczosState::Initialising, LanczosEvent::Started);
    loop
        invariant
            state_valid(plan.steps as int, state),
            forall|i: usize| i < plan.steps ==> #[trigger] step.requires((i,)),
            match state {
                LanczosState::Expanding { step: done } => forall|i: usize|
                    i < done ==> #[trigger] step.ensures((i,), false),
                _ => ended(plan.steps as int, step, state),
            },
        ensures
            ended(plan.steps as int, step, state),
        decreases events_left(plan.steps as int, state),
    {
        match action_for(state) {
            LanczosAction::Iterate { step: i } => {
                let negligible = step(i);
                state = advance(plan, state, LanczosEvent::Residual { negligible });
            },
            _ => {
                break;
            },
        }
    }
    state
}

/// Why a decomposition fails.
#[derive(Clone, Copy, Debug, PartialEq, Eq, Structural)]
pub enum SvdError {
    /// No singular value is above the tolerance.
    NoSignificantSingularValues,
}

/// The positions below `bound` that `significant` marks, in ascending
/// order.
pub open spec fn marked_below(significant: Seq<bool>, bound: int) -> Seq<usize>
    decreases bound,
{
    if bound <= 0 {
        Seq::empty()
    } else if bound <= significant.len() && significant[bound - 1] {
        marked_below(significant, bound - 1).push((bound - 1) as usize)
    } else {
        marked_below(significant, bound - 1)
    }
}

/// Chooses the singular triplets to keep. `significant[j]` says whether
/// the `j`-th largest singular value is above the tolerance; of the first
/// `rank` of them the marked ones are kept. With none to keep the
/// decomposition fails.
pub fn select_significant(significant: &Vec<bool>, rank: usize) -> (r: Result<Vec<usize>, SvdError>)
    ensures
        match r {
            Ok(kept) => kept@ == marked_below(significant@, rank as int) && kept@.len() > 0,
            Err(e) => e == SvdError::NoSignificantSingularValues && marked_below(
                significant@,
                rank as int,
            ).len() == 0,
        },
{
    let mut kept: Vec<usize> = Vec::new();
    let mut j: usize = 0;
    while j < rank && j < significant.len()
        invariant
            j <= rank,
            j <= significant@.len(),
            kept@ == marked_below(significant@, j as int),
        decreases significant@.len() - j,
    {
        if significant[j] {
            kept.push(j);
        }
        j += 1;
    }
    proof {
        lemma_marked_beyond(significant@, j as int, rank as int);
    }
    if kept.len() == 0 {
        Err(SvdError::NoSignificantSingularValues)
    } else {
        Ok(kept)
    }
}

/// Beyond the end of `significant` nothing is marked.
proof fn lemma_marked_beyond(significant: Seq<bool>, from: int, bound: int)
    requires
        0 <= from <= bound,
        from == bound || from == significant.len(),
    ensures
        marked_below(significant, bound) == marked_below(significant, from),
    decreases bound - from,
{
    if from < bound {
        lemma_marked_beyond(significant, from, bound - 1);
    }
}

} // verus!
