use std::cell::Cell;

use matter::acl::{AclEntry, AclMgr, Accessor, Session};
use matter::dispatch::{DataHandler, DataModel, Handler, Step, SUBSCRIBE_MAX_INTERVAL};
use matter::interaction::{
    Interaction, InvokeRequest, ReadRequest, SubscribeRequest, TimedRequest, Transaction,
    WriteRequest,
};
use matter::model::{resume_items, Item, ItemPath, Node, PathFilter, Slot, SlotKind};
use matter::subscription::SubscriptionIds;
use matter::tlv::{Element, Error, Outcome, Packet, REPORT_SIZE, STATUS_ACCESS_DENIED, SUBSCRIBED_SIZE};

const SUBJECT: u64 = 7;

#[derive(Clone)]
struct TestHandler {
    reads: Cell<u32>,
    writes: Vec<(ItemPath, u32)>,
    invokes: Vec<(ItemPath, u32)>,
}

impl TestHandler {
    fn new() -> Self {
        TestHandler { reads: Cell::new(0), writes: Vec::new(), invokes: Vec::new() }
    }
}

impl Handler for TestHandler {
    fn read_value(&self, path: ItemPath) -> Outcome {
        Outcome::Data(path.leaf * 10)
    }

    fn write_status(&self, _path: ItemPath, _value: u32) -> u16 {
        0
    }

    fn after_write(&self, path: ItemPath, value: u32) -> Self {
        let mut next = self.clone();
        next.writes.push((path, value));
        next
    }

    fn invoke_result(&self, path: ItemPath, args: u32) -> Outcome {
        Outcome::Data(args + path.leaf)
    }

    fn after_invoke(&self, path: ItemPath, args: u32) -> Self {
        let mut next = self.clone();
        next.invokes.push((path, args));
        next
    }

    fn read(&self, path: &ItemPath) -> Outcome {
        self.reads.set(self.reads.get() + 1);
        Outcome::Data(path.leaf * 10)
    }

    fn write(&mut self, path: &ItemPath, value: u32) -> u16 {
        self.writes.push((*path, value));
        0
    }

    fn invoke(&mut self, path: &ItemPath, args: u32) -> Outcome {
        self.invokes.push((*path, args));
        Outcome::Data(args + path.leaf)
    }
}

fn path(leaf: u32) -> ItemPath {
    ItemPath { endpoint: 1, cluster: 6, leaf }
}

fn attr(leaf: u32, privilege: u8) -> Slot {
    Slot { path: path(leaf), kind: SlotKind::Attribute, privilege }
}

fn cmd(leaf: u32) -> Slot {
    Slot { path: path(leaf), kind: SlotKind::Command, privilege: 1 }
}

fn any() -> PathFilter {
    PathFilter { endpoint: None, cluster: None, leaf: None }
}

fn acl() -> AclMgr {
    AclMgr { entries: vec![AclEntry { subject: SUBJECT, privilege: 3 }] }
}

fn transaction() -> Transaction {
    Transaction::new(Session { subject: SUBJECT })
}

fn attrs(n: u32) -> Node {
    Node { slots: (0..n).map(|l| attr(l, 1)).collect() }
}

fn read(resume_path: Option<ItemPath>) -> ReadRequest {
    ReadRequest { filter: any(), resume_path }
}

fn data(leaf: u32) -> Element {
    Element::Report { path: path(leaf), outcome: Outcome::Data(leaf * 10) }
}

#[test]
fn read_three_attributes_two_fit_then_resume() {
    let acl = acl();
    let node = attrs(3);
    let mut ids = SubscriptionIds::new();
    let mut dm = DataModel::new(&acl, &node, TestHandler::new(), &mut ids);

    let mut tx = Packet::new(2 * REPORT_SIZE + 5);
    let mut t = transaction();
    let r = dm.handle(Interaction::Read(read(None)), &mut tx, &mut t);
    assert_eq!(r, Ok(false));
    assert_eq!(t.resume_path, Some(path(2)));
    assert_eq!(tx.elements, vec![data(0), data(1)]);

    let mut tx = Packet::new(2 * REPORT_SIZE + 5);
    let mut t = transaction();
    let r = dm.handle(Interaction::ResumeRead(read(Some(path(2)))), &mut tx, &mut t);
    assert_eq!(r, Ok(true));
    assert_eq!(t.resume_path, None);
    assert_eq!(tx.elements, vec![data(2)]);
}

#[test]
fn chunked_reads_match_one_unbounded_read() {
    let acl = acl();
    let node = attrs(7);
    let mut ids = SubscriptionIds::new();
    let mut dm = DataModel::new(&acl, &node, TestHandler::new(), &mut ids);

    let mut whole = Packet::new(1000);
    let mut t = transaction();
    assert_eq!(dm.handle(Interaction::Read(read(None)), &mut whole, &mut t), Ok(true));
    assert_eq!(whole.elements.len(), 7);

    let mut chunks: Vec<Element> = Vec::new();
    let mut resume: Option<ItemPath> = None;
    let mut rounds = 0;
    loop {
        let mut tx = Packet::new(2 * REPORT_SIZE);
        let mut t = transaction();
        let interaction = if rounds == 0 {
            Interaction::Read(read(None))
        } else {
            Interaction::ResumeRead(read(resume))
        };
        let done = dm.handle(interaction, &mut tx, &mut t).unwrap();
        chunks.extend(tx.elements.iter().copied());
        rounds += 1;
        if done {
            assert_eq!(t.resume_path, None);
            break;
        }
        resume = t.resume_path;
        assert!(resume.is_some());
    }
    assert_eq!(rounds, 4);
    assert_eq!(chunks, whole.elements);
}

#[test]
fn chunked_subscribe_resumes_like_read() {
    let acl = acl();
    let node = attrs(3);
    let mut ids = SubscriptionIds::new();
    let mut dm = DataModel::new(&acl, &node, TestHandler::new(), &mut ids);
    let mut tx = Packet::new(REPORT_SIZE);
    let mut t = transaction();
    let sub = SubscribeRequest { filter: any(), resume_path: None };
    assert_eq!(dm.handle(Interaction::Subscribe(sub), &mut tx, &mut t), Ok(false));
    assert_eq!(t.resume_path, Some(path(1)));
    assert_eq!(tx.elements, vec![data(0)]);

    let mut tx = Packet::new(10 * REPORT_SIZE);
    let mut t = transaction();
    let sub = SubscribeRequest { filter: any(), resume_path: Some(path(1)) };
    assert_eq!(dm.handle(Interaction::ResumeSubscribe(sub), &mut tx, &mut t), Ok(true));
    assert_eq!(tx.elements, vec![data(1), data(2)]);
    assert_eq!(dm.subscriptions.next, 1);
}

#[test]
fn empty_traversal_completes_with_nothing_written() {
    let acl = acl();
    let node = attrs(3);
    let mut ids = SubscriptionIds::new();
    let mut dm = DataModel::new(&acl, &node, TestHandler::new(), &mut ids);
    let mut tx = Packet::new(100);
    let mut t = transaction();
    let filter = PathFilter { endpoint: Some(9), cluster: None, leaf: None };
    let r = dm.handle(Interaction::Read(ReadRequest { filter, resume_path: None }), &mut tx, &mut t);
    assert_eq!(r, Ok(true));
    assert_eq!(t.resume_path, None);
    assert!(tx.elements.is_empty());
    assert_eq!(tx.used, 0);
    assert_eq!(dm.handler.reads.get(), 0);
}

#[test]
fn subscription_ids_are_consecutive_and_distinct() {
    let mut ids = SubscriptionIds::new();
    let got: Vec<u32> = (0..5).map(|_| ids.allocate()).collect();
    assert_eq!(got, vec![1, 2, 3, 4, 5]);
    assert_eq!(ids.next, 6);
}

#[test]
fn subscription_ids_wrap_around() {
    let mut ids = SubscriptionIds { next: u32::MAX };
    assert_eq!(ids.allocate(), u32::MAX);
    assert_eq!(ids.allocate(), 0);
}

#[test]
fn resume_subscribe_without_path_establishes_without_traversal() {
    let acl = acl();
    let node = attrs(3);
    let mut ids = SubscriptionIds::new();
    let mut dm = DataModel::new(&acl, &node, TestHandler::new(), &mut ids);
    for id in 1..=2u32 {
        let mut tx = Packet::new(100);
        let mut t = transaction();
        let sub = SubscribeRequest { filter: any(), resume_path: None };
        assert_eq!(dm.handle(Interaction::ResumeSubscribe(sub), &mut tx, &mut t), Ok(true));
        assert_eq!(
            tx.elements,
            vec![Element::Subscribed { id, max_interval: SUBSCRIBE_MAX_INTERVAL }]
        );
        assert_eq!(tx.used, SUBSCRIBED_SIZE);
    }
    assert_eq!(dm.handler.reads.get(), 0);
    assert!(dm.handler.invokes.is_empty());
    assert_eq!(dm.subscriptions.next, 3);
}

#[test]
fn dispatchers_sharing_a_counter_never_repeat_an_id() {
    let acl = acl();
    let node = attrs(1);
    let mut ids = SubscriptionIds::new();
    let sub = SubscribeRequest { filter: any(), resume_path: None };
    let mut seen: Vec<u32> = Vec::new();
    for _ in 0..3 {
        for _ in 0..2 {
            let mut dm = DataModel::new(&acl, &node, TestHandler::new(), &mut ids);
            let mut tx = Packet::new(100);
            let mut t = transaction();
            assert_eq!(dm.handle(Interaction::ResumeSubscribe(sub), &mut tx, &mut t), Ok(true));
            match tx.elements[0] {
                Element::Subscribed { id, .. } => seen.push(id),
                _ => panic!("expected a subscription element"),
            }
        }
    }
    assert_eq!(seen, vec![1, 2, 3, 4, 5, 6]);
    assert_eq!(ids.next, 7);
}

#[test]
fn subscription_element_that_does_not_fit_is_an_error() {
    let acl = acl();
    let node = attrs(1);
    let mut ids = SubscriptionIds::new();
    let mut dm = DataModel::new(&acl, &node, TestHandler::new(), &mut ids);
    let mut tx = Packet::new(SUBSCRIBED_SIZE - 1);
    let mut t = transaction();
    let sub = SubscribeRequest { filter: any(), resume_path: None };
    assert_eq!(dm.handle(Interaction::ResumeSubscribe(sub), &mut tx, &mut t), Err(Error::NoSpace));
    assert!(tx.elements.is_empty());
}

#[test]
fn write_processes_every_item_once() {
    let acl = acl();
    let node = attrs(3);
    let mut ids = SubscriptionIds::new();
    let mut dm = DataModel::new(&acl, &node, TestHandler::new(), &mut ids);
    let mut tx = Packet::new(3 * REPORT_SIZE);
    let mut t = transaction();
    let r = dm.handle(Interaction::Write(WriteRequest { filter: any(), value: 5 }), &mut tx, &mut t);
    assert_eq!(r, Ok(true));
    assert_eq!(t.resume_path, None);
    assert_eq!(dm.handler.writes, vec![(path(0), 5), (path(1), 5), (path(2), 5)]);
    let statuses: Vec<Element> =
        (0..3).map(|l| Element::Report { path: path(l), outcome: Outcome::Status(0) }).collect();
    assert_eq!(tx.elements, statuses);
}

#[test]
fn write_overflow_is_a_hard_error() {
    let acl = acl();
    let node = attrs(3);
    let mut ids = SubscriptionIds::new();
    let mut dm = DataModel::new(&acl, &node, TestHandler::new(), &mut ids);
    let mut tx = Packet::new(2 * REPORT_SIZE);
    let mut t = transaction();
    let r = dm.handle(Interaction::Write(WriteRequest { filter: any(), value: 5 }), &mut tx, &mut t);
    assert_eq!(r, Err(Error::NoSpace));
    assert_eq!(t.resume_path, None);
    assert_eq!(tx.elements.len(), 2);
    assert_eq!(dm.handler.writes, vec![(path(0), 5), (path(1), 5), (path(2), 5)]);
}

#[test]
fn write_overflow_stops_calling_the_handler() {
    let acl = acl();
    let node = attrs(4);
    let mut ids = SubscriptionIds::new();
    let mut dm = DataModel::new(&acl, &node, TestHandler::new(), &mut ids);
    let mut tx = Packet::new(REPORT_SIZE);
    let mut t = transaction();
    let r = dm.handle(Interaction::Write(WriteRequest { filter: any(), value: 5 }), &mut tx, &mut t);
    assert_eq!(r, Err(Error::NoSpace));
    assert_eq!(dm.handler.writes, vec![(path(0), 5), (path(1), 5)]);
}

#[test]
fn invoke_processes_every_command_once() {
    let acl = acl();
    let node = Node { slots: vec![attr(0, 1), cmd(1), cmd(2)] };
    let mut ids = SubscriptionIds::new();
    let mut dm = DataModel::new(&acl, &node, TestHandler::new(), &mut ids);
    let mut tx = Packet::new(100);
    let mut t = transaction();
    let r = dm.handle(Interaction::Invoke(InvokeRequest { filter: any(), args: 100 }), &mut tx, &mut t);
    assert_eq!(r, Ok(true));
    assert_eq!(dm.handler.invokes, vec![(path(1), 100), (path(2), 100)]);
    assert_eq!(
        tx.elements,
        vec![
            Element::Report { path: path(1), outcome: Outcome::Data(101) },
            Element::Report { path: path(2), outcome: Outcome::Data(102) },
        ]
    );
}

#[test]
fn invoke_overflow_is_a_hard_error() {
    let acl = acl();
    let node = Node { slots: vec![cmd(1), cmd(2)] };
    let mut ids = SubscriptionIds::new();
    let mut dm = DataModel::new(&acl, &node, TestHandler::new(), &mut ids);
    let mut tx = Packet::new(REPORT_SIZE + 3);
    let mut t = transaction();
    let r = dm.handle(Interaction::Invoke(InvokeRequest { filter: any(), args: 1 }), &mut tx, &mut t);
    assert_eq!(r, Err(Error::NoSpace));
}

#[test]
fn timed_is_a_no_op() {
    let acl = acl();
    let node = attrs(2);
    let mut ids = SubscriptionIds::new();
    let mut dm = DataModel::new(&acl, &node, TestHandler::new(), &mut ids);
    let mut tx = Packet::new(100);
    let mut t = transaction();
    let r = dm.handle(Interaction::Timed(TimedRequest { timeout_ms: 500 }), &mut tx, &mut t);
    assert_eq!(r, Ok(false));
    assert!(tx.elements.is_empty());
    assert_eq!(t.resume_path, None);
    assert_eq!(dm.handler.reads.get(), 0);
}

#[test]
fn denied_items_get_a_status_and_skip_the_handler() {
    let acl = acl();
    let node = Node { slots: vec![attr(0, 1), attr(1, 5), attr(2, 3)] };
    let mut ids = SubscriptionIds::new();
    let mut dm = DataModel::new(&acl, &node, TestHandler::new(), &mut ids);
    let mut tx = Packet::new(100);
    let mut t = transaction();
    assert_eq!(dm.handle(Interaction::Read(read(None)), &mut tx, &mut t), Ok(true));
    assert_eq!(
        tx.elements,
        vec![
            data(0),
            Element::Report { path: path(1), outcome: Outcome::Status(STATUS_ACCESS_DENIED) },
            data(2),
        ]
    );
    assert_eq!(dm.handler.reads.get(), 2);
}

#[test]
fn unknown_subject_is_denied_everything() {
    let acl = acl();
    let node = attrs(2);
    let mut ids = SubscriptionIds::new();
    let mut dm = DataModel::new(&acl, &node, TestHandler::new(), &mut ids);
    let mut tx = Packet::new(100);
    let mut t = Transaction::new(Session { subject: 99 });
    let r = dm.handle(Interaction::Write(WriteRequest { filter: any(), value: 1 }), &mut tx, &mut t);
    assert_eq!(r, Ok(true));
    assert!(dm.handler.writes.is_empty());
    assert!(tx
        .elements
        .iter()
        .all(|e| matches!(e, Element::Report { outcome: Outcome::Status(STATUS_ACCESS_DENIED), .. })));
}

#[test]
fn accessor_takes_the_highest_matching_privilege() {
    let acl = AclMgr {
        entries: vec![
            AclEntry { subject: 1, privilege: 2 },
            AclEntry { subject: 2, privilege: 9 },
            AclEntry { subject: 1, privilege: 5 },
            AclEntry { subject: 1, privilege: 4 },
        ],
    };
    let a = Accessor::for_session(&Session { subject: 1 }, &acl);
    assert_eq!(a, Accessor { subject: 1, privilege: 5 });
    let b = Accessor::for_session(&Session { subject: 3 }, &acl);
    assert_eq!(b.privilege, 0);
}

#[test]
fn filter_selects_by_each_field() {
    let node = Node {
        slots: vec![
            attr(0, 1),
            Slot { path: ItemPath { endpoint: 2, cluster: 6, leaf: 0 }, kind: SlotKind::Attribute, privilege: 1 },
            Slot { path: ItemPath { endpoint: 1, cluster: 8, leaf: 0 }, kind: SlotKind::Attribute, privilege: 1 },
            attr(4, 1),
        ],
    };
    let f = PathFilter { endpoint: Some(1), cluster: Some(6), leaf: None };
    let items = node.traverse(SlotKind::Attribute, &f, 0);
    assert_eq!(
        items,
        vec![Item { path: path(0), allowed: false }, Item { path: path(4), allowed: false }]
    );
    let f = PathFilter { endpoint: None, cluster: None, leaf: Some(0) };
    assert_eq!(node.traverse(SlotKind::Attribute, &f, 1).len(), 3);
    assert!(f.matches(&path(0)));
    assert!(!f.matches(&path(4)));
}

#[test]
fn resume_from_unknown_path_yields_nothing() {
    let node = attrs(3);
    let all = node.traverse(SlotKind::Attribute, &any(), 1);
    assert!(resume_items(&all, Some(path(9))).is_empty());
    assert_eq!(resume_items(&all, None), all);
    assert_eq!(resume_items(&all, Some(path(1))), all[1..].to_vec());
}

#[test]
fn dispatch_steps_ask_only_for_reachable_items() {
    let acl = acl();
    let node = Node { slots: vec![attr(0, 1), attr(1, 5), attr(2, 1)] };
    let mut ids = SubscriptionIds::new();
    let mut dm = DataModel::new(&acl, &node, TestHandler::new(), &mut ids);
    let mut tx = Packet::new(2 * REPORT_SIZE);
    let mut t = transaction();
    let mut d = dm.start(Interaction::Read(read(None)), &mut tx, &mut t);
    assert_eq!(d.step(None, &mut tx, &mut t), Step::Read(path(0)));
    let answer = Some(Outcome::Data(7));
    assert_eq!(d.step(answer, &mut tx, &mut t), Step::Read(path(2)));
    assert_eq!(d.step(Some(Outcome::Data(9)), &mut tx, &mut t), Step::Done(Ok(false)));
    assert_eq!(t.resume_path, Some(path(2)));
    assert_eq!(
        tx.elements,
        vec![
            Element::Report { path: path(0), outcome: Outcome::Data(7) },
            Element::Report { path: path(1), outcome: Outcome::Status(STATUS_ACCESS_DENIED) },
        ]
    );
    assert_eq!(d.step(None, &mut tx, &mut t), Step::Done(Ok(false)));
    assert_eq!(dm.handler.reads.get(), 0);
}

#[test]
fn dispatch_steps_for_write_stop_on_overflow() {
    let acl = acl();
    let node = attrs(3);
    let mut ids = SubscriptionIds::new();
    let mut dm = DataModel::new(&acl, &node, TestHandler::new(), &mut ids);
    let mut tx = Packet::new(REPORT_SIZE + 1);
    let mut t = transaction();
    let mut d = dm.start(Interaction::Write(WriteRequest { filter: any(), value: 4 }), &mut tx, &mut t);
    assert_eq!(d.step(None, &mut tx, &mut t), Step::Write(path(0), 4));
    assert_eq!(d.step(Some(Outcome::Status(0)), &mut tx, &mut t), Step::Write(path(1), 4));
    assert_eq!(d.step(Some(Outcome::Status(0)), &mut tx, &mut t), Step::Done(Err(Error::NoSpace)));
    assert_eq!(tx.elements.len(), 1);
    assert_eq!(t.resume_path, None);
}

#[test]
fn packet_validity_tracks_sizes() {
    let mut tx = Packet::new(50);
    assert!(tx.is_valid());
    assert_eq!(tx.push(data(1)), Ok(()));
    assert_eq!(tx.used, REPORT_SIZE);
    assert!(tx.is_valid());
    tx.used = 3;
    assert!(!tx.is_valid());
}

#[test]
fn data_handler_forwards_through_a_reference() {
    let acl = acl();
    let node = attrs(1);
    let mut ids = SubscriptionIds::new();
    let mut dm = DataModel::new(&acl, &node, TestHandler::new(), &mut ids);
    let mut tx = Packet::new(100);
    let mut t = transaction();
    {
        let mut by_ref = &mut dm;
        let r = DataHandler::handle(&mut by_ref, Interaction::Read(read(None)), &mut tx, &mut t);
        assert_eq!(r, Ok(true));
    }
    assert_eq!(tx.elements, vec![data(0)]);
}
