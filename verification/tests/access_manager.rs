use soros::access_manager::{AccessGranted, AccessManager, AccessManagerError};
use soros::protocol::RequestType;
use std::collections::HashSet;

fn create_manager() -> AccessManager {
    AccessManager::new()
}

fn assert_grant(manager: &mut AccessManager, expected: AccessGranted) {
    let data = manager.try_recv_granted().unwrap();
    assert_eq!(data, expected);
}

#[test]
fn access_manager_test_create() -> Result<(), AccessManagerError> {
    let mut manager = create_manager();
    assert!(manager.get_key_state(0).is_err());
    manager.create(2, 0)?;
    assert_eq!(manager.get_key_state(0)?.creator, 2);
    assert!(manager.create(0, 0).is_err());
    Ok(())
}

#[test]
fn access_manager_test_delete() -> Result<(), AccessManagerError> {
    let mut manager = create_manager();
    assert!(manager.delete(0).is_err());
    manager.create(0, 0)?;
    manager.delete(0)?;
    assert!(manager.get_key_state(0).is_err());
    Ok(())
}

#[test]
fn test_read() -> Result<(), AccessManagerError> {
    let mut manager = create_manager();
    assert!(manager.read(1, 0).is_err());
    manager.create(0, 0)?;
    manager.read(1, 0)?;
    manager.read(2, 0)?;
    manager.read(3, 0)?;
    assert!(manager.delete(0).is_err());
    assert_eq!(manager.get_key_state(0)?.pending_request(), &vec![]);
    assert_eq!(manager.get_key_state(0)?.readers(), &HashSet::from([1, 2, 3]));
    Ok(())
}

#[test]
fn test_write() -> Result<(), AccessManagerError> {
    let mut manager = create_manager();
    assert!(manager.write(1, 0).is_err());
    manager.create(0, 0)?;
    manager.write(1, 0)?;
    assert!(manager.delete(0).is_err());
    assert!(manager.write(2, 0).is_err());
    assert_eq!(
        manager.get_key_state(0)?.pending_request(),
        &vec![(2, RequestType::Write)]
    );
    assert_eq!(manager.get_key_state(0)?.writer(), Some(1));
    Ok(())
}

#[test]
fn test_read_before_write() -> Result<(), AccessManagerError> {
    let mut manager = create_manager();
    manager.create(0, 0)?;
    manager.read(1, 0)?;
    manager.read(2, 0)?;
    assert!(manager.write(3, 0).is_err());
    assert!(manager.read(4, 0).is_err());
    assert_eq!(
        manager.get_key_state(0)?.pending_request(),
        &vec![(3, RequestType::Write), (4, RequestType::Read)]
    );
    Ok(())
}

#[test]
fn test_write_before_read() -> Result<(), AccessManagerError> {
    let mut manager = create_manager();
    manager.create(0, 0)?;
    manager.write(1, 0)?;
    assert!(manager.read(2, 0).is_err());
    assert!(manager.write(3, 0).is_err());
    assert_eq!(
        manager.get_key_state(0)?.pending_request(),
        &vec![(2, RequestType::Read), (3, RequestType::Write)]
    );
    Ok(())
}

#[test]
fn access_manager_test_release_read() -> Result<(), AccessManagerError> {
    let mut manager = create_manager();
    manager.create(0, 0)?;
    assert!(manager.release(1, 0).is_err());
    manager.read(1, 0)?;
    assert!(manager.release(2, 0).is_err());
    manager.release(1, 0)?;
    assert!(manager.get_key_state(0)?.readers().is_empty());
    Ok(())
}

#[test]
fn access_manager_test_release_write() -> Result<(), AccessManagerError> {
    let mut manager = create_manager();
    manager.create(0, 0)?;
    assert!(manager.release(1, 0).is_err());
    manager.write(1, 0)?;
    assert!(manager.release(2, 0).is_err());
    manager.release(1, 0)?;
    assert_eq!(manager.get_key_state(0)?.writer(), None);
    Ok(())
}

#[test]
fn access_manager_test_handling_read_before_write() -> Result<(), AccessManagerError> {
    let mut manager = create_manager();
    manager.create(0, 0)?;
    manager.read(1, 0)?;
    assert!(manager.write(2, 0).is_err());
    assert!(manager.read(3, 0).is_err());

    manager.release(1, 0)?;
    assert_grant(&mut manager, (2, 0, RequestType::Write, 0));

    manager.release(2, 0)?;
    assert_grant(&mut manager, (3, 0, RequestType::Read, 0));

    Ok(())
}

#[test]
fn access_manager_test_handling_write_before_read() -> Result<(), AccessManagerError> {
    let mut manager = create_manager();
    manager.create(0, 0)?;
    manager.write(1, 0)?;
    assert!(manager.read(2, 0).is_err());
    assert!(manager.read(3, 0).is_err());
    assert!(manager.read(4, 0).is_err());
    assert!(manager.write(5, 0).is_err());

    manager.release(1, 0)?;
    assert_grant(&mut manager, (2, 0, RequestType::Read, 0));
    assert_grant(&mut manager, (3, 0, RequestType::Read, 0));
    assert_grant(&mut manager, (4, 0, RequestType::Read, 0));

    manager.release(2, 0)?;
    manager.release(3, 0)?;
    assert_eq!(manager.take_granted().len(), 0);
    manager.release(4, 0)?;
    assert_grant(&mut manager, (5, 0, RequestType::Write, 0));

    Ok(())
}

// correspond to the report fairness diagram
#[test]
fn access_manager_test_fairness() -> Result<(), AccessManagerError> {
    let mut manager = create_manager();
    let (x, a, b, c, d) = (0, 1, 2, 3, 4);
    manager.create(a, x)?;
    assert_eq!(manager.get_key_state(x)?.creator, a);

    manager.read(a, x)?;
    assert!(manager.write(c, x).is_err());
    assert!(manager.read(b, x).is_err());
    assert_eq!(
        manager.get_key_state(x)?.pending_request(),
        &vec![(c, RequestType::Write), (b, RequestType::Read)]
    );

    manager.release(a, x)?;
    assert_grant(&mut manager, (c, x, RequestType::Write, a));
    assert_eq!(
        manager.get_key_state(x)?.pending_request(),
        &vec![(b, RequestType::Read)]
    );

    assert!(manager.read(d, x).is_err());
    assert_eq!(
        manager.get_key_state(x)?.pending_request(),
        &vec![(b, RequestType::Read), (d, RequestType::Read)]
    );

    manager.release(c, 0)?;
    assert_grant(&mut manager, (b, x, RequestType::Read, a));
    assert_grant(&mut manager, (d, x, RequestType::Read, a));

    assert!(manager.get_key_state(x)?.pending_request().is_empty());
    assert_eq!(manager.get_key_state(x)?.readers(), &HashSet::from([b, d]));
    assert!(manager.get_key_state(x)?.writer().is_none());

    Ok(())
}

// Errors, one input for each.

#[test]
fn access_manager_errors_name_their_cause() {
    let mut manager = create_manager();
    assert_eq!(manager.read(7, 3), Err(AccessManagerError::KeyNotFound(3)));
    assert_eq!(manager.write(7, 3), Err(AccessManagerError::KeyNotFound(3)));
    assert_eq!(manager.release(7, 3), Err(AccessManagerError::KeyNotFound(3)));
    assert_eq!(manager.delete(3), Err(AccessManagerError::KeyNotFound(3)));
    assert!(matches!(
        manager.get_key_state(3),
        Err(AccessManagerError::KeyNotFound(3))
    ));
    manager.create(1, 3).unwrap();
    assert_eq!(manager.create(2, 3), Err(AccessManagerError::KeyExists(3)));
    assert_eq!(manager.release(7, 3), Err(AccessManagerError::ReleaseAccess(7, 3)));
    manager.write(7, 3).unwrap();
    assert_eq!(manager.delete(3), Err(AccessManagerError::KeyAccessed));
    assert_eq!(manager.read(8, 3), Err(AccessManagerError::RequestAccess(8, 3)));
    assert_eq!(manager.write(9, 3), Err(AccessManagerError::RequestAccess(9, 3)));
}

#[test]
fn access_manager_read_returns_holder() {
    let mut manager = create_manager();
    manager.create(5, 1).unwrap();
    assert_eq!(manager.read(6, 1), Ok(5));
    assert_eq!(manager.read(7, 1), Ok(5));
}

// Laws on concrete values.

#[test]
fn access_manager_writer_excludes_readers() {
    let mut manager = create_manager();
    manager.create(0, 0).unwrap();
    manager.write(1, 0).unwrap();
    assert!(manager.read(2, 0).is_err());
    let ks = manager.get_key_state(0).unwrap();
    assert_eq!(ks.writer(), Some(1));
    assert!(ks.readers().is_empty());
}

#[test]
fn access_manager_idle_key_has_no_waiters() {
    let mut manager = create_manager();
    manager.create(0, 0).unwrap();
    manager.read(1, 0).unwrap();
    assert!(manager.write(2, 0).is_err());
    manager.release(1, 0).unwrap();
    manager.release(2, 0).unwrap();
    let ks = manager.get_key_state(0).unwrap();
    assert!(ks.readers().is_empty());
    assert_eq!(ks.writer(), None);
    assert!(ks.pending_request().is_empty());
}

#[test]
fn access_manager_grants_follow_queue_order() {
    let mut manager = create_manager();
    manager.create(0, 0).unwrap();
    manager.write(1, 0).unwrap();
    assert!(manager.read(4, 0).is_err());
    assert!(manager.read(2, 0).is_err());
    assert!(manager.write(3, 0).is_err());
    manager.release(1, 0).unwrap();
    assert_eq!(
        manager.take_granted(),
        vec![(4, 0, RequestType::Read, 0), (2, 0, RequestType::Read, 0)]
    );
    assert_eq!(
        manager.get_key_state(0).unwrap().pending_request(),
        &vec![(3, RequestType::Write)]
    );
}

#[test]
fn access_manager_release_undoes_grant() {
    let mut manager = create_manager();
    manager.create(0, 0).unwrap();
    manager.read(1, 0).unwrap();
    manager.read(2, 0).unwrap();
    manager.release(2, 0).unwrap();
    let ks = manager.get_key_state(0).unwrap();
    assert_eq!(ks.readers(), &HashSet::from([1]));
    assert!(ks.pending_request().is_empty());
    assert_eq!(manager.take_granted().len(), 0);
}

#[test]
fn access_manager_delete_undoes_create() {
    let mut manager = create_manager();
    manager.create(0, 4).unwrap();
    manager.create(0, 5).unwrap();
    manager.delete(5).unwrap();
    assert!(manager.get_key_state(5).is_err());
    assert!(manager.get_key_state(4).is_ok());
    manager.create(9, 5).unwrap();
    assert_eq!(manager.get_key_state(5).unwrap().creator, 9);
}

#[test]
fn access_manager_default_is_empty() {
    let mut manager = AccessManager::default();
    assert!(manager.get_key_state(0).is_err());
    assert!(manager.try_recv_granted().is_none());
}

#[test]
fn access_manager_no_overtaking() {
    let mut manager = create_manager();
    manager.create(0, 0).unwrap();
    manager.read(1, 0).unwrap();
    assert!(manager.write(2, 0).is_err());
    assert_eq!(manager.read(3, 0), Err(AccessManagerError::RequestAccess(3, 0)));
    let ks = manager.get_key_state(0).unwrap();
    assert_eq!(ks.readers(), &HashSet::from([1]));
    assert_eq!(
        ks.pending_request(),
        &vec![(2, RequestType::Write), (3, RequestType::Read)]
    );
}

#[test]
fn access_manager_head_granted_on_last_release() {
    let mut manager = create_manager();
    manager.create(9, 0).unwrap();
    manager.read(1, 0).unwrap();
    manager.read(2, 0).unwrap();
    assert!(manager.write(3, 0).is_err());
    manager.release(1, 0).unwrap();
    assert!(manager.try_recv_granted().is_none());
    manager.release(2, 0).unwrap();
    assert_eq!(manager.try_recv_granted(), Some((3, 0, RequestType::Write, 9)));
}

#[test]
fn access_manager_creator_getter() {
    let mut manager = create_manager();
    manager.create(6, 2).unwrap();
    assert_eq!(manager.get_key_state(2).unwrap().creator(), 6);
}

// Successive rounds of access: every holder releases, and the queue is
// served in order until nothing waits.
#[test]
fn access_manager_all_queued_granted() {
    let mut manager = create_manager();
    manager.create(0, 0).unwrap();
    manager.write(1, 0).unwrap();
    assert!(manager.read(2, 0).is_err());
    assert!(manager.write(3, 0).is_err());
    assert!(manager.read(4, 0).is_err());
    assert!(manager.read(5, 0).is_err());
    manager.release(1, 0).unwrap();
    manager.release(2, 0).unwrap();
    manager.release(3, 0).unwrap();
    assert!(manager.release(4, 0).is_ok());
    manager.release(5, 0).unwrap();
    assert_eq!(
        manager.take_granted(),
        vec![
            (2, 0, RequestType::Read, 0),
            (3, 0, RequestType::Write, 0),
            (4, 0, RequestType::Read, 0),
            (5, 0, RequestType::Read, 0),
        ]
    );
    assert!(manager.get_key_state(0).unwrap().pending_request().is_empty());
}
