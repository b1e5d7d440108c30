use vstd::prelude::*;

use crate::catalog::ResolvedVersion;

verus! {

/// One on-disk clone of a tracked repository.
///
/// `head` is the identifier currently checked out, or `None` while no clone
/// exists at `path`.
pub struct LocalRepository {
    pub path: String,
    pub url: String,
    pub branch: String,
    pub head: Option<String>,
}

/// What a fetch of the remote branch reported.
pub enum RemoteState {
    /// The remote could not be reached.
    Unreachable,
    /// The branch tip, and whether the local head is an ancestor of it (so
    /// that a fast-forward reaches the tip without losing local commits).
    Tip { commit: String, local_is_ancestor: bool },
}

/// What a successful synchronisation did; the caller performs the matching
/// version-control operation.
pub enum SyncOutcome {
    Cloned,
    FastForwarded,
    AlreadyUpToDate,
}

pub enum SyncError {
    NetworkUnavailable,
    DivergedLocalState,
}

/// The outcome of synchronising a repository whose head is `head` against `remote`.
pub open spec fn sync_result(head: Option<Seq<char>>, remote: RemoteState) -> Result<
    SyncOutcome,
    SyncError,
> {
    match remote {
        RemoteState::Unreachable => Err(SyncError::NetworkUnavailable),
        RemoteState::Tip { commit, local_is_ancestor } => match head {
            None => Ok(SyncOutcome::Cloned),
            Some(h) => if h == commit@ {
                Ok(SyncOutcome::AlreadyUpToDate)
            } else if local_is_ancestor {
                Ok(SyncOutcome::FastForwarded)
            } else {
                Err(SyncError::DivergedLocalState)
            },
        },
    }
}

pub open spec fn head_view(head: Option<String>) -> Option<Seq<char>> {
    match head {
        Some(h) => Some(h@),
        None => None,
    }
}

/// The head after synchronising against `remote`: the branch tip on success,
/// the old head otherwise.
pub open spec fn synced_head(head: Option<Seq<char>>, remote: RemoteState) -> Option<Seq<char>> {
    match (sync_result(head, remote), remote) {
        (Ok(_), RemoteState::Tip { commit, .. }) => Some(commit@),
        _ => head,
    }
}

/// Synchronises `repo` with the state of its remote branch.
///
/// With no local clone the branch is cloned; a local head equal to the tip is
/// already up to date; a head that the tip descends from is fast-forwarded;
/// any other head has diverged and is left alone. An unreachable remote
/// leaves the repository as it was.
pub fn sync(repo: &mut LocalRepository, remote: &RemoteState) -> (r: Result<SyncOutcome, SyncError>)
    ensures
        r == sync_result(head_view(old(repo).head), *remote),
        head_view(final(repo).head) == synced_head(head_view(old(repo).head), *remote),
        final(repo).path == old(repo).path,
        final(repo).url == old(repo).url,
        final(repo).branch == old(repo).branch,
{
    match remote {
        RemoteState::Unreachable => Err(SyncError::NetworkUnavailable),
        RemoteState::Tip { commit, local_is_ancestor } => {
            let outcome = match &repo.head {
                None => SyncOutcome::Cloned,
                Some(h) => {
                    if *h == *commit {
                        SyncOutcome::AlreadyUpToDate
                    } else if *local_is_ancestor {
                        SyncOutcome::FastForwarded
                    } else {
                        return Err(SyncError::DivergedLocalState);
                    }
                },
            };
            repo.head = Some(commit.clone());
            Ok(outcome)
        },
    }
}

/// A repository at `head` must be synchronised to reach `version`.
pub open spec fn needs_sync(head: Option<Seq<char>>, version: Seq<char>) -> bool {
    head != Some(version)
}

/// Whether `repo` must be synchronised to reach `resolved`: true unless its
/// head is exactly the resolved version.
pub fn reconcile(local_repository: &LocalRepository, resolved_version: &ResolvedVersion) -> (r: bool)
    ensures
        r == needs_sync(head_view(local_repository.head), resolved_version.record.version@),
{
    match &local_repository.head {
        None => true,
        Some(h) => !(*h == resolved_version.record.version),
    }
}

/// Synchronising twice against an unchanged remote: the second call reports
/// `AlreadyUpToDate` and leaves the head where the first one put it.
pub proof fn lemma_sync_idempotent(head: Option<Seq<char>>, remote: RemoteState)
    requires
        sync_result(head, remote) is Ok,
    ensures
        sync_result(synced_head(head, remote), remote) == Ok::<SyncOutcome, SyncError>(
            SyncOutcome::AlreadyUpToDate,
        ),
        synced_head(synced_head(head, remote), remote) == synced_head(head, remote),
{
}

/// Right after a successful synchronisation to a branch whose tip is the
/// resolved version, no further synchronisation is required.
pub proof fn lemma_reconcile_after_sync(
    head: Option<Seq<char>>,
    remote: RemoteState,
    resolved: ResolvedVersion,
)
    requires
        sync_result(head, remote) is Ok,
        remote matches RemoteState::Tip { commit, .. } && commit@ == resolved.record.version@,
    ensures
        !needs_sync(synced_head(head, remote), resolved.record.version@),
{
}

} // verus!
