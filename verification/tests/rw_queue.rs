use soros::rw_queue::{OnAccessGranted, RequestType, RwQueue, RwQueueError};
use std::cell::RefCell;
use std::collections::HashSet;
use std::rc::Rc;
use std::sync::mpsc::{channel, Receiver, Sender};

fn create_queue() -> RwQueue<OnAccessGranted> {
    RwQueue::new(Box::new(|_, _, _| {}))
}

fn create_queue_with_grant() -> (
    RwQueue<OnAccessGranted>,
    Sender<OnAccessGranted>,
    Receiver<bool>,
) {
    let (fn_tx, fn_rx) = channel::<OnAccessGranted>();
    let (call_tx, call_rx) = channel();
    (
        RwQueue::new(Box::new(move |proc_id, key_id, req_type| {
            fn_rx.try_recv().unwrap()(proc_id, key_id, req_type);
            call_tx.send(true).unwrap();
        })),
        fn_tx,
        call_rx,
    )
}

fn assert_on_grant(tx: &Sender<OnAccessGranted>, proc: usize, key: usize, req: RequestType) {
    tx.send(Box::new(move |proc_id, key_id, req_type| {
        assert_eq!((proc_id, key_id, req_type), (proc, key, req));
    }))
    .unwrap();
}

#[test]
fn rw_queue_test_create() -> Result<(), RwQueueError> {
    let mut queue = create_queue();
    assert!(queue.get_key_state(0).is_err());
    queue.create(2, 0)?;
    assert_eq!(queue.get_key_state(0)?.creator, 2);
    assert!(queue.create(0, 0).is_err());
    Ok(())
}

#[test]
fn rw_queue_test_delete() -> Result<(), RwQueueError> {
    let mut queue = create_queue();
    assert!(queue.delete(0).is_err());
    queue.create(0, 0)?;
    queue.delete(0)?;
    assert!(queue.get_key_state(0).is_err());
    Ok(())
}

#[test]
fn test_request_read() -> Result<(), RwQueueError> {
    let mut queue = create_queue();
    assert!(queue.request_read(1, 0).is_err());
    queue.create(0, 0)?;
    queue.request_read(1, 0)?;
    queue.request_read(2, 0)?;
    queue.request_read(3, 0)?;
    assert_eq!(queue.get_key_state(0)?.pending_request(), &vec![]);
    assert_eq!(queue.get_key_state(0)?.readers(), &HashSet::from([1, 2, 3]));
    Ok(())
}

#[test]
fn test_request_write() -> Result<(), RwQueueError> {
    let mut queue = create_queue();
    assert!(queue.request_write(1, 0).is_err());
    queue.create(0, 0)?;
    queue.request_write(1, 0)?;
    assert!(queue.request_write(2, 0).is_err());
    assert_eq!(
        queue.get_key_state(0)?.pending_request(),
        &vec![(2, RequestType::Writer)]
    );
    assert_eq!(queue.get_key_state(0)?.writer(), Some(1));
    Ok(())
}

#[test]
fn test_request_read_before_write() -> Result<(), RwQueueError> {
    let mut queue = create_queue();
    queue.create(0, 0)?;
    queue.request_read(1, 0)?;
    queue.request_read(2, 0)?;
    assert!(queue.request_write(3, 0).is_err());
    assert!(queue.request_read(4, 0).is_err());
    assert_eq!(
        queue.get_key_state(0)?.pending_request(),
        &vec![(3, RequestType::Writer), (4, RequestType::Reader)]
    );
    Ok(())
}

#[test]
fn test_request_write_before_read() -> Result<(), RwQueueError> {
    let mut queue = create_queue();
    queue.create(0, 0)?;
    queue.request_write(1, 0)?;
    assert!(queue.request_read(2, 0).is_err());
    assert!(queue.request_write(3, 0).is_err());
    assert_eq!(
        queue.get_key_state(0)?.pending_request(),
        &vec![(2, RequestType::Reader), (3, RequestType::Writer)]
    );
    Ok(())
}

#[test]
fn rw_queue_test_release_read() -> Result<(), RwQueueError> {
    let mut queue = create_queue();
    queue.create(0, 0)?;
    assert!(queue.release(1, 0).is_err());
    queue.request_read(1, 0)?;
    assert!(queue.release(2, 0).is_err());
    queue.release(1, 0)?;
    assert!(queue.get_key_state(0)?.readers().is_empty());
    Ok(())
}

#[test]
fn rw_queue_test_release_write() -> Result<(), RwQueueError> {
    let mut queue = create_queue();
    queue.create(0, 0)?;
    assert!(queue.release(1, 0).is_err());
    queue.request_write(1, 0)?;
    assert!(queue.release(2, 0).is_err());
    queue.release(1, 0)?;
    assert_eq!(queue.get_key_state(0)?.writer(), None);
    Ok(())
}

#[test]
fn rw_queue_test_handling_read_before_write() -> Result<(), RwQueueError> {
    let (mut queue, fn_tx, call_rx) = create_queue_with_grant();
    queue.create(0, 0)?;
    queue.request_read(1, 0)?;
    assert!(queue.request_write(2, 0).is_err());
    assert!(queue.request_read(3, 0).is_err());

    assert_on_grant(&fn_tx, 2, 0, RequestType::Writer);
    queue.release(1, 0)?;
    assert_eq!(call_rx.try_iter().count(), 1);

    assert_on_grant(&fn_tx, 3, 0, RequestType::Reader);
    queue.release(2, 0)?;
    assert_eq!(call_rx.try_iter().count(), 1);

    Ok(())
}

#[test]
fn rw_queue_test_handling_write_before_read() -> Result<(), RwQueueError> {
    let (mut queue, fn_tx, call_rx) = create_queue_with_grant();
    queue.create(0, 0)?;
    queue.request_write(1, 0)?;
    assert!(queue.request_read(2, 0).is_err());
    assert!(queue.request_read(3, 0).is_err());
    assert!(queue.request_read(4, 0).is_err());
    assert!(queue.request_write(5, 0).is_err());

    for i in 2..=4 {
        assert_on_grant(&fn_tx, i, 0, RequestType::Reader);
    }
    queue.release(1, 0)?;
    assert_eq!(call_rx.try_iter().count(), 3);

    assert_on_grant(&fn_tx, 5, 0, RequestType::Writer);
    queue.release(2, 0)?;
    queue.release(3, 0)?;
    assert_eq!(call_rx.try_iter().count(), 0);
    queue.release(4, 0)?;
    assert_eq!(call_rx.try_iter().count(), 1);

    Ok(())
}

// correspond to the report fairness diagram
#[test]
fn rw_queue_test_fairness() -> Result<(), RwQueueError> {
    let (mut queue, fn_tx, call_rx) = create_queue_with_grant();
    let (x, a, b, c, d) = (0, 1, 2, 3, 4);
    queue.create(a, x)?;
    assert_eq!(queue.get_key_state(x)?.creator, a);

    queue.request_read(a, x)?;
    assert!(queue.request_write(c, x).is_err());
    assert!(queue.request_read(b, x).is_err());
    assert_eq!(
        queue.get_key_state(x)?.pending_request(),
        &vec![(c, RequestType::Writer), (b, RequestType::Reader)]
    );

    assert_on_grant(&fn_tx, c, x, RequestType::Writer);
    queue.release(a, x)?;
    assert_eq!(call_rx.try_iter().count(), 1);
    assert_eq!(
        queue.get_key_state(x)?.pending_request(),
        &vec![(b, RequestType::Reader)]
    );

    assert!(queue.request_read(d, x).is_err());
    assert_eq!(
        queue.get_key_state(x)?.pending_request(),
        &vec![(b, RequestType::Reader), (d, RequestType::Reader)]
    );

    assert_on_grant(&fn_tx, b, x, RequestType::Reader);
    assert_on_grant(&fn_tx, d, x, RequestType::Reader);
    queue.release(c, 0)?;
    assert_eq!(call_rx.try_iter().count(), 2);

    assert!(queue.get_key_state(x)?.pending_request().is_empty());
    assert_eq!(queue.get_key_state(x)?.readers(), &HashSet::from([b, d]));
    assert!(queue.get_key_state(x)?.writer().is_none());

    Ok(())
}

// Errors, one input for each.

#[test]
fn rw_queue_errors_name_their_cause() {
    let mut queue = create_queue();
    assert_eq!(queue.request_read(7, 3), Err(RwQueueError::KeyNotFound(3)));
    assert_eq!(queue.request_write(7, 3), Err(RwQueueError::KeyNotFound(3)));
    assert_eq!(queue.release(7, 3), Err(RwQueueError::KeyNotFound(3)));
    assert_eq!(queue.delete(3), Err(RwQueueError::KeyNotFound(3)));
    queue.create(1, 3).unwrap();
    assert_eq!(queue.create(2, 3), Err(RwQueueError::KeyExists(3)));
    assert_eq!(queue.release(7, 3), Err(RwQueueError::ReleaseAccess(7, 3)));
    queue.request_write(7, 3).unwrap();
    assert_eq!(queue.request_read(8, 3), Err(RwQueueError::RequestAccess(8, 3)));
    assert_eq!(queue.request_write(9, 3), Err(RwQueueError::RequestAccess(9, 3)));
    // a key in use can still be deleted
    assert_eq!(queue.delete(3), Ok(()));
}

// Laws on concrete values.

fn recording_queue() -> (RwQueue<OnAccessGranted>, Rc<RefCell<Vec<(usize, usize, RequestType)>>>) {
    let calls = Rc::new(RefCell::new(Vec::new()));
    let log = calls.clone();
    let queue: RwQueue<OnAccessGranted> = RwQueue::new(Box::new(move |p, k, t| {
        log.borrow_mut().push((p, k, t));
    }));
    (queue, calls)
}

#[test]
fn rw_queue_grants_follow_queue_order() {
    let (mut queue, calls) = recording_queue();
    queue.create(0, 6).unwrap();
    queue.request_write(1, 6).unwrap();
    assert!(queue.request_read(5, 6).is_err());
    assert!(queue.request_read(2, 6).is_err());
    assert!(queue.request_write(3, 6).is_err());
    assert!(queue.request_read(4, 6).is_err());
    queue.release(1, 6).unwrap();
    assert_eq!(
        *calls.borrow(),
        vec![(5, 6, RequestType::Reader), (2, 6, RequestType::Reader)]
    );
    queue.release(5, 6).unwrap();
    queue.release(2, 6).unwrap();
    assert_eq!(calls.borrow().len(), 3);
    assert_eq!(calls.borrow()[2], (3, 6, RequestType::Writer));
    assert_eq!(
        queue.get_key_state(6).unwrap().pending_request(),
        &vec![(4, RequestType::Reader)]
    );
}

#[test]
fn rw_queue_writer_excludes_readers_and_idle_has_no_waiters() {
    let (mut queue, calls) = recording_queue();
    queue.create(0, 0).unwrap();
    queue.request_read(1, 0).unwrap();
    assert!(queue.request_write(2, 0).is_err());
    queue.release(1, 0).unwrap();
    let ks = queue.get_key_state(0).unwrap();
    assert_eq!(ks.writer(), Some(2));
    assert!(ks.readers().is_empty());
    queue.release(2, 0).unwrap();
    let ks = queue.get_key_state(0).unwrap();
    assert!(ks.pending_request().is_empty());
    assert_eq!(calls.borrow().len(), 1);
}

#[test]
fn rw_queue_release_undoes_grant() {
    let (mut queue, calls) = recording_queue();
    queue.create(0, 0).unwrap();
    queue.request_write(1, 0).unwrap();
    queue.release(1, 0).unwrap();
    let ks = queue.get_key_state(0).unwrap();
    assert_eq!(ks.writer(), None);
    assert!(ks.readers().is_empty());
    assert!(ks.pending_request().is_empty());
    assert!(calls.borrow().is_empty());
}

#[test]
fn rw_queue_no_overtaking_and_head_granted_on_last_release() {
    let (mut queue, calls) = recording_queue();
    queue.create(0, 0).unwrap();
    queue.request_read(1, 0).unwrap();
    queue.request_read(2, 0).unwrap();
    assert!(queue.request_write(3, 0).is_err());
    assert_eq!(queue.request_read(4, 0), Err(RwQueueError::RequestAccess(4, 0)));
    queue.release(1, 0).unwrap();
    assert!(calls.borrow().is_empty());
    queue.release(2, 0).unwrap();
    assert_eq!(*calls.borrow(), vec![(3, 0, RequestType::Writer)]);
}

#[test]
fn rw_queue_creator_getter_and_all_queued_granted() {
    let (mut queue, calls) = recording_queue();
    queue.create(8, 1).unwrap();
    assert_eq!(queue.get_key_state(1).unwrap().creator(), 8);
    queue.request_read(2, 1).unwrap();
    assert!(queue.request_write(3, 1).is_err());
    assert!(queue.request_read(4, 1).is_err());
    assert!(queue.request_write(5, 1).is_err());
    queue.release(2, 1).unwrap();
    queue.release(3, 1).unwrap();
    queue.release(4, 1).unwrap();
    queue.release(5, 1).unwrap();
    assert_eq!(
        *calls.borrow(),
        vec![
            (3, 1, RequestType::Writer),
            (4, 1, RequestType::Reader),
            (5, 1, RequestType::Writer),
        ]
    );
    assert!(queue.get_key_state(1).unwrap().pending_request().is_empty());
}
