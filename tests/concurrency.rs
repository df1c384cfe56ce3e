use fcdb::cid::{Cap, CapCid, Cid};
use fcdb::concur::{
    BorrowCapCid, BorrowMutCapCid, CapTracer, ConcurError, LeaseInfo, LeaseManager, OwnedCapCid, ResourceManager,
    SafeExecutor, Transaction,
};
use fcdb::concur::{txn_step, TxnEvent, TxnState};
use fcdb::perms;

#[test]
fn test_owned_cap_cid() {
    let data = "test data".to_string();
    let cap = Cap::new(0, 100, perms::READ | perms::WRITE);
    let cid = Cid::hash(data.as_bytes());

    let owned = OwnedCapCid::new(data, cap, cid);
    {
        let (cap_ref, data_ref) = owned.as_ref();
        assert!(cap_ref.has_perm(perms::READ));
        assert_eq!(data_ref, "test data");
    }

    let mut owned = owned;
    {
        let (cap_mut, data_mut) = owned.as_mut();
        *data_mut = "modified".to_string();
        cap_mut.perms &= !perms::WRITE;
    }

    let (final_cap, final_data) = owned.as_ref();
    assert_eq!(final_data, "modified");
    assert!(!final_cap.has_perm(perms::WRITE));
}

#[test]
fn test_capability_functor() {
    let data: i32 = 42;
    let cap = Cap::new(0, 100, perms::READ | perms::WRITE);
    let cid = Cid::hash(&data.to_le_bytes());

    let owned = OwnedCapCid::new(data, cap, cid);
    let mapped = owned.cap_map(|x| x * 2);
    let (_, result) = mapped.as_ref();
    assert_eq!(*result, 84);
}

#[test]
fn flat_map_meets_capabilities() {
    let outer = OwnedCapCid::new(1u32, Cap::new(0, 100, perms::READ | perms::WRITE), Cid::hash(b"outer"));
    let inner_cid = Cid::hash(b"inner");
    let composed = outer.cap_flat_map(|x| OwnedCapCid::new(x + 1, Cap::new(50, 100, perms::READ), inner_cid));
    let (cap, value) = composed.as_ref();
    assert_eq!(*value, 2);
    assert_eq!(cap.base, 50);
    assert_eq!(cap.len, 50);
    assert_eq!(cap.perms, perms::READ);
    let (parts, _) = composed.into_parts();
    assert_eq!(parts.cid, inner_cid);
}

#[test]
fn test_ownership_adjunction() {
    let cap_cid = CapCid::new(Cid::hash(b"r"), Cap::new(0, 10, perms::READ | perms::WRITE));
    let mut data = vec![0u8];
    {
        let shared = BorrowCapCid::new(&cap_cid, &data);
        assert_eq!(shared.data(), &vec![0u8]);
        assert!(shared.cap().has_perm(perms::READ));
        assert_eq!(*shared.cid(), Cid::hash(b"r"));
    }
    let mut cc = cap_cid;
    {
        let mut exclusive = BorrowMutCapCid::new(&mut cc, &mut data);
        assert!(exclusive.cap().has_perm(perms::WRITE));
        *exclusive.data_mut() = vec![1, 2, 3];
        exclusive.cap_mut().perms = perms::READ;
        assert_eq!(exclusive.data(), &vec![1, 2, 3]);
        assert_eq!(*exclusive.cid(), Cid::hash(b"r"));
    }
    assert_eq!(data, vec![1, 2, 3]);
    assert_eq!(cc.cap.perms, perms::READ);
}

#[test]
fn test_transaction_lifecycle() {
    let mut rm = ResourceManager::new();
    let cid = Cid::hash(b"test resource");
    let cap = Cap::new(0, 100, perms::READ | perms::WRITE);

    rm.register_resource(cid, cap).unwrap();
    let mut txn = rm.begin_transaction(0).unwrap();
    rm.acquire_exclusive(&cid, &mut txn).unwrap();
    assert!(txn.check_write_perm(&cid).is_ok());
    rm.commit_transaction(txn, 10).unwrap();
}

#[test]
fn write_without_write_permission_is_denied() {
    let mut rm = ResourceManager::new();
    let cid = Cid::hash(b"read only");
    rm.register_resource(cid, Cap::new(0, 100, perms::READ)).unwrap();
    let mut txn = rm.begin_transaction(0).unwrap();
    assert_eq!(rm.acquire_exclusive(&cid, &mut txn), Err(ConcurError::PermissionDenied));
    rm.acquire_shared(&cid, &mut txn).unwrap();
    assert_eq!(txn.check_write_perm(&cid), Err(ConcurError::PermissionDenied));
    assert_eq!(rm.acquire_shared(&Cid::hash(b"unknown"), &mut txn), Err(ConcurError::OwnershipViolation));
}

#[test]
fn owned_entries_decide_before_borrowed() {
    let cid = Cid::hash(b"x");
    let mut txn = Transaction::new(1, 0);
    txn.add_borrowed(CapCid::new(cid, Cap::new(0, 1, perms::WRITE)));
    assert!(txn.check_write_perm(&cid).is_ok());
    txn.add_owned(OwnedCapCid::new((), Cap::new(0, 1, perms::READ), cid));
    assert_eq!(txn.check_write_perm(&cid), Err(ConcurError::PermissionDenied));
}

#[test]
fn expired_transaction_does_not_commit() {
    let mut rm = ResourceManager::new();
    let txn = rm.begin_transaction(1000).unwrap();
    assert!(!txn.is_expired(6000));
    assert!(txn.is_expired(6001));
    assert_eq!(rm.commit_transaction(txn, 6001), Err(ConcurError::TransactionConflict));
    let second = rm.begin_transaction(0).unwrap();
    assert_eq!(second.id(), 2);
}

fn lease(expires_at: u64, auto_renew: bool) -> LeaseInfo {
    LeaseInfo { resource_id: 1, holder: "test_user".to_string(), permissions: perms::READ | perms::WRITE, expires_at, auto_renew }
}

#[test]
fn test_lease_management() {
    let mut lm = LeaseManager::new();
    let lease_id = 12345;
    let now = 1_700_000_000;
    lm.grant_lease(lease_id, lease(now + 3600, true)).unwrap();

    let checked = lm.check_lease(lease_id, now).unwrap();
    assert_eq!(checked.holder, "test_user");

    lm.revoke_lease(lease_id).unwrap();
    assert!(lm.check_lease(lease_id, now).is_err());
}

#[test]
fn expired_lease_scenario() {
    let mut lm = LeaseManager::new();
    lm.grant_lease(7, lease(100, false)).unwrap();
    assert_eq!(lm.check_lease(7, 100).unwrap().expires_at, 100);
    assert!(matches!(lm.check_lease(7, 101), Err(ConcurError::LeaseExpired)));
    assert!(matches!(lm.renew_lease(7, 500), Err(ConcurError::PermissionDenied)));
    assert!(lm.revoke_lease(7).is_ok());
    assert!(matches!(lm.renew_lease(7, 500), Err(ConcurError::LeaseExpired)));
    lm.grant_lease(8, lease(100, true)).unwrap();
    lm.renew_lease(8, 500).unwrap();
    assert!(lm.check_lease(8, 400).is_ok());
}

#[test]
fn test_capability_tracing() {
    let mut tracer = CapTracer::new();
    let cid = Cid::hash(b"test resource");
    let cap = Cap::new(0, 100, perms::READ);

    tracer.record_operation("read", "alice", &cid, &cap, true, "successful read", 1);
    tracer.record_operation("write", "bob", &cid, &cap, false, "permission denied", 2);

    let alice_ops = tracer.get_actor_operations("alice");
    assert_eq!(alice_ops.len(), 1);
    assert_eq!(alice_ops[0].operation, "read");
    assert!(alice_ops[0].success);

    let resource_trail = tracer.get_audit_trail(&cid);
    assert_eq!(resource_trail.len(), 2);
}

#[test]
fn audit_trace_is_bounded() {
    let mut tracer = CapTracer::new();
    let cid = Cid::hash(b"r");
    let cap = Cap::new(0, 1, perms::READ);
    for i in 0..1005u64 {
        tracer.record_operation("op", "a", &cid, &cap, true, "", i);
    }
    let trail = tracer.get_audit_trail(&cid);
    assert_eq!(trail.len(), 1000);
    assert_eq!(trail[0].timestamp, 5);
    assert_eq!(trail[999].timestamp, 1004);
}

#[test]
fn safe_executor_brackets_operations() {
    let mut exec = SafeExecutor::new();
    let cid = Cid::hash(b"res");
    let cap = Cap::new(0, 10, perms::READ);
    assert_eq!(exec.execute_safe("alice", "read", &cid, 5, || Ok::<u32, ConcurError>(1)), Err(ConcurError::OwnershipViolation));
    assert!(exec.tracer().get_audit_trail(&cid).is_empty());
    exec.register_resource(cid, cap);
    assert_eq!(exec.execute_safe("alice", "read", &cid, 5, || Ok::<u32, ConcurError>(41 + 1)), Ok(42));
    assert_eq!(
        exec.execute_safe("bob", "write", &cid, 6, || Err::<u32, ConcurError>(ConcurError::PermissionDenied)),
        Err(ConcurError::PermissionDenied)
    );
    let trail = exec.tracer().get_audit_trail(&cid);
    assert_eq!(trail.len(), 2);
    assert_eq!(trail[0].details, "success");
    assert_eq!(trail[1].details, "failed");
    assert_eq!(trail[1].actor, "bob");
    assert!(!trail[1].success);
}

#[test]
fn transaction_state_machine() {
    assert_eq!(txn_step(TxnState::Active, TxnEvent::TimeoutProbe { expired: false }), TxnState::Active);
    assert_eq!(txn_step(TxnState::Active, TxnEvent::TimeoutProbe { expired: true }), TxnState::Expired);
    assert_eq!(txn_step(TxnState::Active, TxnEvent::Commit { expired: false }), TxnState::Committed);
    assert_eq!(txn_step(TxnState::Active, TxnEvent::Commit { expired: true }), TxnState::Aborted);
    assert_eq!(txn_step(TxnState::Active, TxnEvent::Abort), TxnState::Aborted);
    assert_eq!(txn_step(TxnState::Committed, TxnEvent::Abort), TxnState::Committed);
    assert_eq!(txn_step(TxnState::Expired, TxnEvent::Commit { expired: false }), TxnState::Expired);
}
