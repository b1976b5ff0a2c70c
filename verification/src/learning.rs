//! Write-through profile learning decisions.
//!
//! A successful live mutation on a profile-bound connection becomes a
//! revision-checked persistence attempt; these functions decide, from the
//! connection's binding, whether to attempt it and, from the store's
//! answer, how the binding and the reported persistence result change.
//! The store call itself runs outside the library.

use vstd::prelude::*;
use crate::codec::str_bytes;
use crate::text::{find_subsequence, spec_find};

verus! {

/// Classify a store error as a stale-producing conflict: a revision
/// mismatch or a missing (externally deleted) profile.
pub open spec fn spec_is_conflict(err: Seq<char>) -> bool {
    spec_find(str_bytes(err), str_bytes("revision conflict"@)) is Some || spec_find(
        str_bytes(err),
        str_bytes("not found"@),
    ) is Some
}

/// Whether a store error is a conflict (see [`spec_is_conflict`]).
pub fn is_conflict(err: &str) -> (r: bool)
    ensures
        r == spec_is_conflict(err@),
{
    find_subsequence(err.as_bytes(), "revision conflict".as_bytes()).is_some() || find_subsequence(
        err.as_bytes(),
        "not found".as_bytes(),
    ).is_some()
}

/// How a learned change was persisted.
#[derive(Debug, Clone, Copy, PartialEq, Eq, Structural)]
pub enum ProfilePersistenceState {
    /// No persistent profile binding: nothing to persist.
    Transient,
    /// The profile already held the effective defaults.
    NotNeeded,
    /// The profile was updated to a new revision.
    Persisted,
    /// Persistence failed (store error, conflict, or a stale binding).
    Failed,
}

/// The durable operation whose persistence a report describes.
#[derive(Debug, Clone, Copy, PartialEq, Eq, Structural)]
pub enum ProfilePersistenceOperation {
    /// A learned change to the effective defaults.
    Learned,
    /// An override given when the connection was opened.
    OpenOverride,
}

/// A connection's binding to a device profile.
#[derive(Debug, Clone)]
pub struct ProfileBinding {
    pub profile_name: String,
    /// Whether learned changes are written through to the profile.
    pub persistent: bool,
    /// The profile revision the binding last agreed with.
    pub revision: Option<u64>,
    /// Effective defaults differ from the stored profile.
    pub dirty: bool,
    /// The stored profile changed externally; writes are refused.
    pub stale: bool,
    pub last_persistence_error: Option<String>,
}

/// The persistence result reported for one learning attempt.
#[derive(Debug, Clone)]
pub struct PersistenceReport {
    pub state: ProfilePersistenceState,
    pub operation: ProfilePersistenceOperation,
    pub profile_name: Option<String>,
    pub revision: Option<u64>,
    pub error: Option<String>,
}

/// What to do first.
#[derive(Debug)]
pub enum LearnStart {
    /// Nothing to store: the binding afterwards and the report.
    Finished { binding: Option<ProfileBinding>, report: PersistenceReport },
    /// Ask the store to update `profile_name` from `expected_revision`.
    Persist { profile_name: String, expected_revision: u64 },
}

/// The store's answer to an update.
#[derive(Debug)]
pub enum StoreUpdate {
    /// Stored; `changed` is false when the profile already held the defaults.
    Updated { changed: bool, profile_name: String, revision: u64 },
    /// The store refused or failed, with its error text.
    Failed { error: String },
}

pub open spec fn opt_text(o: Option<String>) -> Option<Seq<char>> {
    match o {
        Some(s) => Some(s@),
        None => None,
    }
}

/// A transient report: no name, revision or error.
pub open spec fn is_transient(r: PersistenceReport) -> bool {
    r.state == ProfilePersistenceState::Transient && r.profile_name is None && r.revision is None && r.error is None
}

/// The error a stale binding reports.
pub open spec fn stale_error(b: ProfileBinding) -> Seq<char> {
    match b.last_persistence_error {
        Some(e) => e@,
        None => "profile revision changed externally; connection binding is stale"@,
    }
}

/// Decide whether a learned change is written through: no binding or a
/// non-persistent one is transient; a stale binding fails without a store
/// write and turns dirty; otherwise the store is asked, expecting the
/// binding's revision (0 when it has none).
pub fn learn_start(binding: Option<ProfileBinding>, operation: ProfilePersistenceOperation) -> (r: LearnStart)
    ensures
        r matches LearnStart::Finished { report, .. } ==> report.operation == operation,
        match binding {
            None => r matches LearnStart::Finished { binding: nb, report } && nb is None && is_transient(report),
            Some(b) => if !b.persistent {
                r matches LearnStart::Finished { binding: nb, report } && nb == Some(b) && is_transient(report)
            } else if b.stale {
                r matches LearnStart::Finished { binding: Some(nb), report } && nb.profile_name == b.profile_name
                    && nb.persistent == b.persistent && nb.revision == b.revision && nb.dirty && nb.stale == b.stale
                    && opt_text(nb.last_persistence_error) == Some(stale_error(b)) && report.state
                    == ProfilePersistenceState::Failed && opt_text(report.profile_name) == Some(b.profile_name@)
                    && report.revision == b.revision && opt_text(report.error) == Some(stale_error(b))
            } else {
                r matches LearnStart::Persist { profile_name, expected_revision } && profile_name@ == b.profile_name@
                    && expected_revision == (match b.revision {
                    Some(v) => v,
                    None => 0,
                })
            },
        },
{
    let b = match binding {
        None => {
            return LearnStart::Finished {
                binding: None,
                report: PersistenceReport {
                    state: ProfilePersistenceState::Transient,
                    operation,
                    profile_name: None,
                    revision: None,
                    error: None,
                },
            };
        },
        Some(b) => b,
    };
    if !b.persistent {
        return LearnStart::Finished {
            binding: Some(b),
            report: PersistenceReport {
                state: ProfilePersistenceState::Transient,
                operation,
                profile_name: None,
                revision: None,
                error: None,
            },
        };
    }
    if b.stale {
        let error = match &b.last_persistence_error {
            Some(e) => e.clone(),
            None => "profile revision changed externally; connection binding is stale".to_owned(),
        };
        let name = b.profile_name.clone();
        let revision = b.revision;
        let nb = ProfileBinding {
            profile_name: b.profile_name,
            persistent: b.persistent,
            revision: b.revision,
            dirty: true,
            stale: b.stale,
            last_persistence_error: Some(error.clone()),
        };
        return LearnStart::Finished {
            binding: Some(nb),
            report: PersistenceReport {
                state: ProfilePersistenceState::Failed,
                operation,
                profile_name: Some(name),
                revision,
                error: Some(error),
            },
        };
    }
    let expected_revision = match b.revision {
        Some(v) => v,
        None => 0,
    };
    LearnStart::Persist { profile_name: b.profile_name.clone(), expected_revision }
}

/// Apply the store's answer: an unchanged profile makes the binding clean
/// (`NotNeeded`); a changed one moves it to the new revision and makes it
/// clean (`Persisted`); a failure keeps the expected revision, makes the
/// binding dirty, stale when the error is a conflict, and records the error
/// (`Failed`).
pub fn learn_finish(binding: ProfileBinding, update: StoreUpdate, operation: ProfilePersistenceOperation) -> (r: (
    ProfileBinding,
    PersistenceReport,
))
    ensures
        r.1.operation == operation,
        r.0.profile_name == binding.profile_name,
        r.0.persistent == binding.persistent,
        match update {
            StoreUpdate::Updated { changed, profile_name, revision } => {
                &&& !r.0.dirty && !r.0.stale && r.0.last_persistence_error is None
                &&& r.0.revision == (if changed { Some(revision) } else { binding.revision })
                &&& r.1.state == (if changed {
                    ProfilePersistenceState::Persisted
                } else {
                    ProfilePersistenceState::NotNeeded
                })
                &&& opt_text(r.1.profile_name) == Some(profile_name@)
                &&& r.1.revision == Some(revision)
                &&& r.1.error is None
            },
            StoreUpdate::Failed { error } => {
                &&& r.0.dirty && r.0.revision == binding.revision
                &&& r.0.stale == (binding.stale || spec_is_conflict(error@))
                &&& opt_text(r.0.last_persistence_error) == Some(error@)
                &&& r.1.state == ProfilePersistenceState::Failed
                &&& opt_text(r.1.profile_name) == Some(binding.profile_name@)
                &&& r.1.revision == binding.revision
                &&& opt_text(r.1.error) == Some(error@)
            },
        },
{
    match update {
        StoreUpdate::Updated { changed, profile_name, revision } => {
            let new_revision = if changed { Some(revision) } else { binding.revision };
            let nb = ProfileBinding {
                profile_name: binding.profile_name,
                persistent: binding.persistent,
                revision: new_revision,
                dirty: false,
                stale: false,
                last_persistence_error: None,
            };
            let state = if changed { ProfilePersistenceState::Persisted } else { ProfilePersistenceState::NotNeeded };
            (nb, PersistenceReport { state, operation, profile_name: Some(profile_name), revision: Some(revision), error: None })
        },
        StoreUpdate::Failed { error } => {
            let conflict = is_conflict(error.as_str());
            let name = binding.profile_name.clone();
            let revision = binding.revision;
            let nb = ProfileBinding {
                profile_name: binding.profile_name,
                persistent: binding.persistent,
                revision: binding.revision,
                dirty: true,
                stale: binding.stale || conflict,
                last_persistence_error: Some(error.clone()),
            };
            (
                nb,
                PersistenceReport {
                    state: ProfilePersistenceState::Failed,
                    operation,
                    profile_name: Some(name),
                    revision,
                    error: Some(error),
                },
            )
        },
    }
}

} // verus!
