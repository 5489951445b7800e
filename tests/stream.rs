use accesskit_stream::handle::build_update_if_active;
use accesskit_stream::hub::{AcceptError, Command, Hub};
use accesskit_stream::store::{AccessTree, TreeStore};
use std::cell::Cell;
use std::rc::Rc;

/// A stand-in tree: its state is the list of numbers applied so far.
struct ListTree {
    items: Vec<u8>,
}

impl AccessTree<u8> for ListTree {
    // Named for proofs only; never called.
    fn encoded(&self) -> accesskit_stream::store::Encoding {
        unreachable!()
    }

    fn apply(&mut self, update: u8) {
        self.items.push(update);
    }

    fn serialize(&self) -> Vec<u8> {
        let mut out = vec![b'['];
        out.extend_from_slice(&self.items);
        out.push(b']');
        out
    }
}

fn counting_factory(
    calls: &Rc<Cell<u32>>,
    initial: Option<Vec<u8>>,
) -> impl FnOnce() -> Option<ListTree> {
    let calls = Rc::clone(calls);
    move || {
        calls.set(calls.get() + 1);
        initial.map(|items| ListTree { items })
    }
}

fn state(items: &[u8]) -> Vec<u8> {
    let mut out = vec![b'['];
    out.extend_from_slice(items);
    out.push(b']');
    out
}

/// Writes everything pending for `id` in one go and returns the payloads.
fn drain<F: FnOnce() -> Option<ListTree>>(hub: &mut Hub<ListTree, u8, F>, id: u64) -> Vec<Vec<u8>> {
    let mut out = Vec::new();
    while let Some((payload, cursor)) = hub.next_write(id) {
        let rest = payload[cursor..].to_vec();
        let n = rest.len();
        out.push(rest);
        assert!(hub.wrote(id, n));
    }
    out
}

#[test]
fn store_builds_lazily_and_once() {
    let calls = Rc::new(Cell::new(0));
    let mut store = TreeStore::new(counting_factory(&calls, Some(vec![1])));
    assert_eq!(calls.get(), 0);
    assert!(store.force());
    assert!(store.force());
    assert!(store.apply(2));
    assert_eq!(store.snapshot(), Some(state(&[1, 2])));
    assert_eq!(calls.get(), 1);
}

#[test]
fn failed_factory_is_not_retried() {
    let calls = Rc::new(Cell::new(0));
    let mut store = TreeStore::new(counting_factory(&calls, None));
    assert!(!store.apply(7));
    assert_eq!(store.snapshot(), None);
    assert!(!store.force());
    assert_eq!(calls.get(), 1);
}

#[test]
fn new_hub_does_not_build_the_tree() {
    let calls = Rc::new(Cell::new(0));
    let hub = Hub::new(counting_factory(&calls, Some(vec![])));
    assert_eq!(hub.active_count(), 0);
    assert_eq!(calls.get(), 0);
}

#[test]
fn snapshot_then_updates_scenario() {
    let calls = Rc::new(Cell::new(0));
    let mut hub = Hub::new(counting_factory(&calls, Some(vec![0])));
    assert_eq!(hub.accept(1), Ok(()));
    assert_eq!(drain(&mut hub, 1), vec![state(&[0])]);
    assert!(hub.update(1));
    assert_eq!(drain(&mut hub, 1), vec![state(&[0, 1])]);
    assert_eq!(hub.accept(2), Ok(()));
    assert_eq!(drain(&mut hub, 2), vec![state(&[0, 1])]);
    assert!(hub.disconnect(1));
    assert!(hub.disconnect(2));
    assert_eq!(hub.active_count(), 0);
    let built = Rc::new(Cell::new(0));
    let b = Rc::clone(&built);
    let r = build_update_if_active(hub.active_count(), move || {
        b.set(b.get() + 1);
        5u8
    });
    assert_eq!(r, None);
    assert_eq!(built.get(), 0);
    assert_eq!(calls.get(), 1);
}

#[test]
fn snapshot_reflects_all_prior_updates() {
    let calls = Rc::new(Cell::new(0));
    let mut hub = Hub::new(counting_factory(&calls, Some(vec![9])));
    assert!(hub.update(1));
    assert!(hub.update(2));
    assert!(hub.update(3));
    assert_eq!(hub.accept(4), Ok(()));
    assert_eq!(drain(&mut hub, 4), vec![state(&[9, 1, 2, 3])]);
}

#[test]
fn updates_arrive_in_order_without_gaps() {
    let calls = Rc::new(Cell::new(0));
    let mut hub = Hub::new(counting_factory(&calls, Some(vec![])));
    assert!(hub.update(1));
    assert_eq!(hub.accept(1), Ok(()));
    assert!(hub.update(2));
    assert!(hub.update(3));
    assert_eq!(
        drain(&mut hub, 1),
        vec![state(&[1]), state(&[1, 2]), state(&[1, 2, 3])]
    );
}

#[test]
fn every_connection_gets_each_update() {
    let calls = Rc::new(Cell::new(0));
    let mut hub = Hub::new(counting_factory(&calls, Some(vec![])));
    for id in 10..13u64 {
        assert_eq!(hub.accept(id), Ok(()));
        drain(&mut hub, id);
    }
    assert!(hub.handle(Command::UpdateTree(4)));
    for id in 10..13u64 {
        assert_eq!(drain(&mut hub, id), vec![state(&[4])]);
    }
}

#[test]
fn partial_writes_resume_where_they_stopped() {
    let calls = Rc::new(Cell::new(0));
    let mut hub = Hub::new(counting_factory(&calls, Some(vec![1, 2, 3])));
    assert_eq!(hub.accept(7), Ok(()));
    let (payload, cursor) = hub.next_write(7).unwrap();
    assert_eq!((payload.clone(), cursor), (state(&[1, 2, 3]), 0));
    assert!(hub.wrote(7, 2));
    let (payload, cursor) = hub.next_write(7).unwrap();
    assert_eq!(&payload[cursor..], &[2, 3, b']'][..]);
    assert!(hub.wrote(7, 3));
    assert!(hub.next_write(7).is_none());
    assert!(!hub.wrote(7, 1));
}

#[test]
fn disconnected_connection_gets_nothing_more() {
    let calls = Rc::new(Cell::new(0));
    let mut hub = Hub::new(counting_factory(&calls, Some(vec![])));
    assert_eq!(hub.accept(1), Ok(()));
    assert_eq!(hub.accept(2), Ok(()));
    assert!(hub.disconnect(1));
    assert!(!hub.disconnect(1));
    assert!(hub.update(8));
    assert!(hub.next_write(1).is_none());
    assert!(!hub.wrote(1, 1));
    assert_eq!(drain(&mut hub, 2), vec![state(&[]), state(&[8])]);
    assert_eq!(hub.active_count(), 1);
}

#[test]
fn accept_errors() {
    let calls = Rc::new(Cell::new(0));
    let mut hub = Hub::new(counting_factory(&calls, Some(vec![])));
    assert_eq!(hub.accept(1), Ok(()));
    assert_eq!(hub.accept(1), Err(AcceptError::DuplicateId));
    assert_eq!(hub.active_count(), 1);

    let failing = Rc::new(Cell::new(0));
    let mut broken = Hub::new(counting_factory(&failing, None));
    assert_eq!(broken.accept(1), Err(AcceptError::TreeUnavailable));
    assert_eq!(broken.accept(2), Err(AcceptError::TreeUnavailable));
    assert!(!broken.update(3));
    assert_eq!(failing.get(), 1);
    assert_eq!(broken.active_count(), 0);
}

#[test]
fn shutdown_drops_every_connection() {
    let calls = Rc::new(Cell::new(0));
    let mut hub = Hub::new(counting_factory(&calls, Some(vec![])));
    assert_eq!(hub.accept(1), Ok(()));
    assert_eq!(hub.accept(2), Ok(()));
    assert!(!hub.handle(Command::Shutdown));
    assert_eq!(hub.active_count(), 0);
    assert!(hub.next_write(1).is_none());
    assert_eq!(hub.accept(3), Err(AcceptError::Closed));
    assert!(!hub.update(4));
    assert!(!hub.handle(Command::UpdateTree(5)));
}

#[test]
fn update_factory_runs_when_someone_listens() {
    let built = Rc::new(Cell::new(0));
    let b = Rc::clone(&built);
    let r = build_update_if_active(2, move || {
        b.set(b.get() + 1);
        6u8
    });
    assert_eq!(r, Some(6));
    assert_eq!(built.get(), 1);
}

#[test]
fn one_shot_transfer_carries_its_bytes_only() {
    let calls = Rc::new(Cell::new(0));
    let mut hub = Hub::new(counting_factory(&calls, Some(vec![])));
    assert_eq!(hub.accept(1), Ok(()));
    assert!(hub.handle(Command::DeliverBytes(2, vec![7, 7])));
    assert_eq!(calls.get(), 1);
    assert!(!hub.transfer_done(2));
    assert!(hub.update(3));
    assert_eq!(drain(&mut hub, 2), vec![vec![7, 7]]);
    assert!(hub.transfer_done(2));
    assert!(!hub.transfer_done(1));
    assert_eq!(drain(&mut hub, 1), vec![state(&[]), state(&[3])]);
    assert!(!hub.transfer_done(1));
    assert!(hub.disconnect(2));
    assert!(!hub.transfer_done(2));
}

#[test]
fn transfer_errors() {
    let calls = Rc::new(Cell::new(0));
    let mut hub = Hub::new(counting_factory(&calls, None));
    assert_eq!(hub.deliver(1, vec![1]), Ok(()));
    assert_eq!(calls.get(), 0);
    assert_eq!(hub.deliver(1, vec![2]), Err(AcceptError::DuplicateId));
    assert_eq!(hub.accept(1), Err(AcceptError::DuplicateId));
    hub.shutdown();
    assert_eq!(hub.deliver(3, vec![3]), Err(AcceptError::Closed));
    assert!(!hub.handle(Command::DeliverBytes(4, vec![4])));
}
