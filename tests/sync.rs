use octool::catalog::{resolve, BuildRecord, CatalogEntry, VersionCatalog};
use octool::config::{repository_for, RepoSpec};
use octool::sync::{reconcile, sync, LocalRepository, RemoteState, SyncError, SyncOutcome};

fn repo(head: Option<&str>) -> LocalRepository {
    LocalRepository {
        path: "resources/OpenCorePkg".to_string(),
        url: "https://example.invalid/OpenCorePkg.git".to_string(),
        branch: "master".to_string(),
        head: head.map(|h| h.to_string()),
    }
}

fn tip(commit: &str, local_is_ancestor: bool) -> RemoteState {
    RemoteState::Tip { commit: commit.to_string(), local_is_ancestor }
}

#[test]
fn same_commit_is_already_up_to_date() {
    let mut r = repo(Some("A"));
    let out = sync(&mut r, &tip("A", true));
    assert!(matches!(out, Ok(SyncOutcome::AlreadyUpToDate)));
    assert_eq!(r.head.as_deref(), Some("A"));
}

#[test]
fn missing_clone_is_cloned() {
    let mut r = repo(None);
    assert!(matches!(sync(&mut r, &tip("B", false)), Ok(SyncOutcome::Cloned)));
    assert_eq!(r.head.as_deref(), Some("B"));
    assert_eq!(r.branch, "master");
}

#[test]
fn behind_is_fast_forwarded() {
    let mut r = repo(Some("A"));
    assert!(matches!(sync(&mut r, &tip("B", true)), Ok(SyncOutcome::FastForwarded)));
    assert_eq!(r.head.as_deref(), Some("B"));
}

#[test]
fn diverged_is_left_alone() {
    let mut r = repo(Some("C"));
    assert!(matches!(sync(&mut r, &tip("B", false)), Err(SyncError::DivergedLocalState)));
    assert_eq!(r.head.as_deref(), Some("C"));
}

#[test]
fn unreachable_remote_is_network_unavailable() {
    let mut r = repo(Some("A"));
    assert!(matches!(sync(&mut r, &RemoteState::Unreachable), Err(SyncError::NetworkUnavailable)));
    assert_eq!(r.head.as_deref(), Some("A"));
    let mut fresh = repo(None);
    assert!(matches!(sync(&mut fresh, &RemoteState::Unreachable), Err(SyncError::NetworkUnavailable)));
    assert!(fresh.head.is_none());
}

#[test]
fn second_sync_is_already_up_to_date() {
    let remote = tip("B", true);
    let mut r = repo(Some("A"));
    assert!(matches!(sync(&mut r, &remote), Ok(SyncOutcome::FastForwarded)));
    assert!(matches!(sync(&mut r, &remote), Ok(SyncOutcome::AlreadyUpToDate)));
    assert_eq!(r.head.as_deref(), Some("B"));
}

#[test]
fn reconcile_false_after_sync_to_resolved() {
    let cat = VersionCatalog {
        entries: vec![CatalogEntry {
            component: "OpenCorePkg".to_string(),
            records: vec![
                BuildRecord { channel: "release".to_string(), version: "abc123".to_string(), publish_time: 3 },
                BuildRecord { channel: "release".to_string(), version: "def456".to_string(), publish_time: 7 },
            ],
        }],
    };
    let resolved = resolve("OpenCorePkg", "release", &cat).ok().unwrap();
    let mut r = repo(Some("abc123"));
    assert!(reconcile(&r, &resolved));
    assert!(sync(&mut r, &tip("def456", true)).is_ok());
    assert!(!reconcile(&r, &resolved));
}

#[test]
fn reconcile_true_without_clone() {
    let resolved = octool::catalog::ResolvedVersion {
        component: "OpenCorePkg".to_string(),
        record: BuildRecord { channel: "release".to_string(), version: "A".to_string(), publish_time: 1 },
    };
    assert!(reconcile(&repo(None), &resolved));
    assert!(!reconcile(&repo(Some("A")), &resolved));
}

#[test]
fn repository_for_copies_location() {
    let spec = RepoSpec { path: "p".to_string(), url: "u".to_string(), branch: "b".to_string() };
    let r = repository_for(&spec);
    assert_eq!((r.path.as_str(), r.url.as_str(), r.branch.as_str()), ("p", "u", "b"));
    assert!(r.head.is_none());
}
