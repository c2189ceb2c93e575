use eka_ci::attempt::{
    DrvBuildCommand, DrvBuildEvent, DrvBuildId, DrvBuildInterruptionKind, DrvBuildMetadata,
    DrvBuildResult, DrvBuildState,
};
use eka_ci::drv::DrvId;
use eka_ci::git::{GitCommit, GitRepo};
use eka_ci::scheduler::{next_state, record_event, recover_interrupted_builds, Propagation, RetryPolicy};
use eka_ci::store::{Store, StoreError};

/// `a <- b <- c`: `b` depends on `a`, `c` on `b`; each has one queued attempt.
fn chain() -> Store {
    let mut store = Store::new();
    let g = vec![
        ("a".to_string(), vec![]),
        ("b".to_string(), vec!["a".to_string()]),
        ("c".to_string(), vec!["b".to_string()]),
    ];
    store.insert_drv_graph(&g, &"x86_64-linux".to_string()).unwrap();
    for d in ["a", "b", "c"] {
        store.new_drv_build_event(DrvBuildEvent::for_insert(id(d, 1), DrvBuildState::Queued)).unwrap();
    }
    store
}

fn id(d: &str, attempt: u32) -> DrvBuildId {
    DrvBuildId { derivation: DrvId::new(d), build_attempt: attempt }
}

fn latest(store: &Store, d: &str) -> DrvBuildState {
    store.get_latest_build_event(&DrvId::new(d)).unwrap().state
}

fn no_retries() -> RetryPolicy {
    RetryPolicy { out_of_memory: false, timeout: false, cancelled: false, process_death: false, scheduler_death: false }
}

#[test]
fn success_makes_dependants_buildable() {
    let mut store = chain();
    let policy = RetryPolicy::new();
    let ok = DrvBuildState::Completed(DrvBuildResult::Success);
    record_event(&mut store, DrvBuildEvent::for_insert(id("a", 1), ok), &policy).unwrap();
    assert_eq!(latest(&store, "b"), DrvBuildState::Buildable);
    assert_eq!(latest(&store, "c"), DrvBuildState::Queued);
    record_event(&mut store, DrvBuildEvent::for_insert(id("b", 1), ok), &policy).unwrap();
    assert_eq!(latest(&store, "c"), DrvBuildState::Buildable);
}

#[test]
fn failure_poisons_transitive_dependants() {
    let mut store = chain();
    let failed = DrvBuildState::Completed(DrvBuildResult::Failure);
    record_event(&mut store, DrvBuildEvent::for_insert(id("a", 1), failed), &RetryPolicy::new()).unwrap();
    assert_eq!(latest(&store, "b"), DrvBuildState::TransitiveFailure);
    assert_eq!(latest(&store, "c"), DrvBuildState::TransitiveFailure);
    let late = record_event(
        &mut store,
        DrvBuildEvent::for_insert(id("c", 1), DrvBuildState::Building),
        &RetryPolicy::new(),
    );
    assert_eq!(late.unwrap_err(), StoreError::TerminalState);
}

#[test]
fn interruption_blocks_but_failure_dominates() {
    let mut store = chain();
    let policy = no_retries();
    let timeout = DrvBuildState::Interrupted(DrvBuildInterruptionKind::Timeout);
    record_event(&mut store, DrvBuildEvent::for_insert(id("a", 1), timeout), &policy).unwrap();
    assert_eq!(latest(&store, "b"), DrvBuildState::Blocked);
    assert_eq!(latest(&store, "c"), DrvBuildState::Blocked);
    assert_eq!(next_state(Propagation::Interrupted, false, DrvBuildState::TransitiveFailure), None);
    assert_eq!(
        next_state(Propagation::Failed, false, DrvBuildState::Blocked),
        Some(DrvBuildState::TransitiveFailure)
    );
    assert_eq!(next_state(Propagation::Succeeded, false, DrvBuildState::Blocked), Some(DrvBuildState::Queued));
}

#[test]
fn retryable_interruption_starts_new_attempt() {
    let mut store = chain();
    let m = DrvBuildMetadata::for_insert(
        DrvId::new("a"),
        GitRepo::parse("https://github.com/ekala-project/eka-ci").unwrap(),
        GitCommit::from_hex("1f5cfe6827dc7956af7da54755717202d17667a0").unwrap(),
        DrvBuildCommand::SingleAttr {
            executable: "/bin/nix".to_string(),
            args: Vec::new(),
            env: Vec::new(),
            file: "/f.nix".to_string(),
            attr: "a".to_string(),
        },
    );
    store.new_drv_build_metadata(m).unwrap();
    let oom = DrvBuildState::Interrupted(DrvBuildInterruptionKind::OutOfMemory);
    record_event(&mut store, DrvBuildEvent::for_insert(id("a", 1), oom), &RetryPolicy::new()).unwrap();
    let now = store.get_latest_build_event(&DrvId::new("a")).unwrap();
    assert_eq!(now.state, DrvBuildState::Buildable);
    assert_eq!(now.build.build_attempt, 2);
    assert_eq!(latest(&store, "b"), DrvBuildState::Queued);
}

#[test]
fn crash_recovery_interrupts_running_builds() {
    let mut store = chain();
    store.new_drv_build_event(DrvBuildEvent::for_insert(id("b", 1), DrvBuildState::Building)).unwrap();
    recover_interrupted_builds(&mut store, &no_retries());
    assert_eq!(latest(&store, "b"), DrvBuildState::Interrupted(DrvBuildInterruptionKind::SchedulerDeath));
    assert_eq!(latest(&store, "c"), DrvBuildState::Blocked);
    assert_eq!(latest(&store, "a"), DrvBuildState::Queued);
    assert!(store.get_derivations_in_state(DrvBuildState::Building).is_empty());
}

#[test]
fn crash_recovery_retries_when_policy_allows() {
    let mut store = chain();
    let m = DrvBuildMetadata::for_insert(
        DrvId::new("b"),
        GitRepo::parse("https://github.com/ekala-project/eka-ci").unwrap(),
        GitCommit::from_hex("1f5cfe6827dc7956af7da54755717202d17667a0").unwrap(),
        DrvBuildCommand::SingleAttr {
            executable: "/bin/nix".to_string(),
            args: Vec::new(),
            env: Vec::new(),
            file: "/f.nix".to_string(),
            attr: "b".to_string(),
        },
    );
    store.new_drv_build_metadata(m).unwrap();
    store.new_drv_build_event(DrvBuildEvent::for_insert(id("b", 1), DrvBuildState::Building)).unwrap();
    let policy = RetryPolicy { scheduler_death: true, ..no_retries() };
    recover_interrupted_builds(&mut store, &policy);
    let now = store.get_latest_build_event(&DrvId::new("b")).unwrap();
    assert_eq!(now.state, DrvBuildState::Buildable);
    assert_eq!(now.build.build_attempt, 2);
    assert_eq!(latest(&store, "c"), DrvBuildState::Queued);
}

#[test]
fn default_policy_blocks_after_scheduler_death() {
    let mut store = chain();
    store.new_drv_build_event(DrvBuildEvent::for_insert(id("a", 1), DrvBuildState::Building)).unwrap();
    recover_interrupted_builds(&mut store, &RetryPolicy::new());
    assert_eq!(latest(&store, "b"), DrvBuildState::Blocked);
    assert_eq!(latest(&store, "c"), DrvBuildState::Blocked);
}
