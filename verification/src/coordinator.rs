//! Build-or-load: what is done about a cached artefact, given what was
//! found so far; and which scoring a query gets, given what is ready.

use vstd::prelude::*;
use crate::lanczos::SvdError;
use crate::persist::{PersistenceError, Repair};
use crate::query::SearchMode;

verus! {

/// Where the handling of one artefact stands.
#[derive(Clone, Copy, Debug, PartialEq, Eq, Structural)]
pub enum ArtefactState {
    /// Nothing is known yet.
    Unknown,
    /// The cache is there and is being loaded.
    Loading,
    /// The artefact is being built, to be saved.
    Building,
    /// The artefact can be used; `repaired` says that its size had to be
    /// corrected on loading.
    Ready { repaired: bool },
    /// The artefact could not be built; queries must do without it.
    Unavailable,
}

/// What was found.
#[derive(Clone, Copy, Debug, PartialEq, Eq, Structural)]
pub enum Finding {
    /// Whether the cache file is there.
    Probed { present: bool },
    /// The cache was loaded, with the given repair.
    Loaded { repair: Repair },
    /// The cache could not be loaded.
    LoadFailed { error: PersistenceError },
    /// The artefact was built.
    Built,
    /// The decomposition failed.
    BuildFailed { cause: SvdError },
}

/// What is to be done next.
#[derive(Clone, Copy, Debug, PartialEq, Eq, Structural)]
pub enum Task {
    /// Look whether the cache is there.
    Probe,
    /// Load the cache.
    Load,
    /// Build the artefact and save it.
    BuildAndSave,
    /// Nothing: the artefact is ready or given up.
    Rest,
}

/// The state after a finding. A cache that is there is loaded, one that is
/// missing or cannot be loaded is rebuilt, one of the wrong size is used as
/// repaired. Findings that do not fit the state leave it.
pub open spec fn state_after(state: ArtefactState, finding: Finding) -> ArtefactState {
    match (state, finding) {
        (ArtefactState::Unknown, Finding::Probed { present }) => if present {
            ArtefactState::Loading
        } else {
            ArtefactState::Building
        },
        (ArtefactState::Loading, Finding::Loaded { repair }) => ArtefactState::Ready {
            repaired: repair != Repair::Intact,
        },
        (ArtefactState::Loading, Finding::LoadFailed { .. }) => ArtefactState::Building,
        (ArtefactState::Building, Finding::Built) => ArtefactState::Ready { repaired: false },
        (ArtefactState::Building, Finding::BuildFailed { .. }) => ArtefactState::Unavailable,
        _ => state,
    }
}

/// The task of a state.
pub open spec fn task_of(state: ArtefactState) -> Task {
    match state {
        ArtefactState::Unknown => Task::Probe,
        ArtefactState::Loading => Task::Load,
        ArtefactState::Building => Task::BuildAndSave,
        ArtefactState::Ready { .. } => Task::Rest,
        ArtefactState::Unavailable => Task::Rest,
    }
}

/// How many findings the handling can still take before it rests.
pub open spec fn findings_left(state: ArtefactState) -> int {
    match state {
        ArtefactState::Unknown => 3,
        ArtefactState::Loading => 2,
        ArtefactState::Building => 1,
        ArtefactState::Ready { .. } => 0,
        ArtefactState::Unavailable => 0,
    }
}

/// Whether `finding` answers the task of `state`.
pub open spec fn answers(state: ArtefactState, finding: Finding) -> bool {
    match (state, finding) {
        (ArtefactState::Unknown, Finding::Probed { .. }) => true,
        (ArtefactState::Loading, Finding::Loaded { .. }) => true,
        (ArtefactState::Loading, Finding::LoadFailed { .. }) => true,
        (ArtefactState::Building, Finding::Built) => true,
        (ArtefactState::Building, Finding::BuildFailed { .. }) => true,
        _ => false,
    }
}

/// Moves the handling of an artefact on by one finding.
pub fn proceed(state: ArtefactState, finding: Finding) -> (next: ArtefactState)
    ensures
        next == state_after(state, finding),
{
    match state {
        ArtefactState::Unknown => match finding {
            Finding::Probed { present } => if present {
                ArtefactState::Loading
            } else {
                ArtefactState::Building
            },
            _ => state,
        },
        ArtefactState::Loading => match finding {
            Finding::Loaded { repair } => match repair {
                Repair::Intact => ArtefactState::Ready { repaired: false },
                _ => ArtefactState::Ready { repaired: true },
            },
            Finding::LoadFailed { .. } => ArtefactState::Building,
            _ => state,
        },
        ArtefactState::Building => match finding {
            Finding::Built => ArtefactState::Ready { repaired: false },
            Finding::BuildFailed { .. } => ArtefactState::Unavailable,
            _ => state,
        },
        ArtefactState::Ready { .. } => state,
        ArtefactState::Unavailable => state,
    }
}

/// What is to be done in a state.
pub fn task_for(state: ArtefactState) -> (task: Task)
    ensures
        task == task_of(state),
{
    match state {
        ArtefactState::Unknown => Task::Probe,
        ArtefactState::Loading => Task::Load,
        ArtefactState::Building => Task::BuildAndSave,
        ArtefactState::Ready { .. } => Task::Rest,
        ArtefactState::Unavailable => Task::Rest,
    }
}

/// The handling of an artefact ends: every finding that answers the task
/// brings rest nearer, so at most three findings are needed, and a cache
/// that fails to load is never loaded again.
pub proof fn lemma_handling_ends(state: ArtefactState, finding: Finding)
    requires
        answers(state, finding),
    ensures
        0 <= findings_left(state_after(state, finding)) < findings_left(state),
        state_after(state, finding) != ArtefactState::Loading || state == ArtefactState::Unknown,
{
}

/// The smallest rank for which a decomposition is kept in the cache.
pub const SMALL_RANK: usize = 10;

/// The middle rank kept in the cache, used where a request names none.
pub const MEDIUM_RANK: usize = 25;

/// The largest rank kept in the cache.
pub const LARGE_RANK: usize = 50;

/// The cached rank that serves a requested rank: the smallest of the
/// three that is large enough, and the largest where none is.
pub fn cached_rank(requested: usize) -> (rank: usize)
    ensures
        rank == if requested <= SMALL_RANK {
            SMALL_RANK
        } else if requested <= MEDIUM_RANK {
            MEDIUM_RANK
        } else {
            LARGE_RANK
        },
{
    if requested <= SMALL_RANK {
        SMALL_RANK
    } else if requested <= MEDIUM_RANK {
        MEDIUM_RANK
    } else {
        LARGE_RANK
    }
}

/// The scoring that a query gets: the one asked for, or tf-idf where the
/// decomposition that a latent mode needs is not ready.
pub fn scoring_mode(requested: SearchMode, svd: ArtefactState) -> (mode: SearchMode)
    ensures
        mode == if svd is Ready {
            requested
        } else {
            SearchMode::TfIdf
        },
{
    match svd {
        ArtefactState::Ready { .. } => requested,
        _ => SearchMode::TfIdf,
    }
}

} // verus!
