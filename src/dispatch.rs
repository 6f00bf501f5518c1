use vstd::prelude::*;
use crate::acl::{granted, Accessor, AclMgr};
use crate::interaction::{Interaction, Transaction};
use crate::model::{lemma_resume_continues, resume_items, resumed, Item, ItemPath, Node, PathFilter, SlotKind};
use crate::subscription::{nth_id, SubscriptionIds};
use crate::tlv::{report, Element, Error, Outcome, Packet, REPORT_SIZE, STATUS_ACCESS_DENIED, SUBSCRIBED_SIZE};

verus! {

/// The maximum interval offered when a subscription is established.
pub const SUBSCRIBE_MAX_INTERVAL: u16 = 40;

/// What the device implementer supplies: attribute storage and command
/// execution. Each call is described by spec functions of the handler's
/// state: what a read returns, what a write or an invocation answers, and
/// the state that it leaves.
pub trait Handler: Sized {
    spec fn read_value(&self, path: ItemPath) -> Outcome;

    spec fn write_status(&self, path: ItemPath, value: u32) -> u16;

    spec fn after_write(&self, path: ItemPath, value: u32) -> Self;

    spec fn invoke_result(&self, path: ItemPath, args: u32) -> Outcome;

    spec fn after_invoke(&self, path: ItemPath, args: u32) -> Self;

    fn read(&self, path: &ItemPath) -> (r: Outcome)
        ensures
            r == self.read_value(*path),
    ;

    fn write(&mut self, path: &ItemPath, value: u32) -> (r: u16)
        ensures
            r == old(self).write_status(*path, value),
            *final(self) == old(self).after_write(*path, value),
    ;

    fn invoke(&mut self, path: &ItemPath, args: u32) -> (r: Outcome)
        ensures
            r == old(self).invoke_result(*path, args),
            *final(self) == old(self).after_invoke(*path, args),
    ;
}

/// What a dispatch asks of the handler for each reachable item.
#[derive(Clone, Copy, Debug, PartialEq, Eq, Structural)]
pub enum Action {
    Read,
    Write(u32),
    Invoke(u32),
    /// The interaction was answered without visiting any item.
    Settled,
}

/// The handler's state after the calls for the first `i` items.
pub open spec fn handler_state<T: Handler>(h: T, items: Seq<Item>, action: Action, i: nat) -> T
    decreases i,
{
    if i == 0 || i > items.len() {
        h
    } else {
        let prev = handler_state(h, items, action, (i - 1) as nat);
        let it = items[i - 1];
        if !it.allowed {
            prev
        } else {
            match action {
                Action::Write(v) => prev.after_write(it.path, v),
                Action::Invoke(a) => prev.after_invoke(it.path, a),
                _ => prev,
            }
        }
    }
}

/// What the handler answers for item `i`, in the state that the calls
/// before it left.
pub open spec fn expected_answer<T: Handler>(h: T, items: Seq<Item>, action: Action, i: int) -> Outcome {
    let s = handler_state(h, items, action, i as nat);
    let it = items[i];
    match action {
        Action::Read => s.read_value(it.path),
        Action::Write(v) => Outcome::Status(s.write_status(it.path, v)),
        Action::Invoke(a) => s.invoke_result(it.path, a),
        Action::Settled => Outcome::Status(0),
    }
}

pub open spec fn expected_answers<T: Handler>(h: T, items: Seq<Item>, action: Action) -> Seq<Outcome> {
    Seq::new(items.len(), |i: int| expected_answer(h, items, action, i))
}

/// The reports of `items`, item `i` carrying answer `i`.
pub open spec fn reports(items: Seq<Item>, answers: Seq<Outcome>) -> Seq<Element> {
    Seq::new(items.len(), |i: int| report(items[i], answers[i]))
}

/// `m` of `n` reports fit in `free` bytes, and no more.
pub open spec fn is_chunk_len(m: nat, n: nat, free: nat) -> bool {
    &&& m <= n
    &&& m * REPORT_SIZE <= free
    &&& m < n ==> free < (m + 1) * REPORT_SIZE
}

/// The read-family outcome: the longest prefix of `items` that fits is
/// encoded with its answers, the first item that did not fit becomes the
/// resume path, and the exchange is complete when all of them fit.
pub open spec fn read_done(
    old_tx: Packet,
    new_tx: Packet,
    old_t: Transaction,
    new_t: Transaction,
    items: Seq<Item>,
    answers: Seq<Outcome>,
    r: Result<bool, Error>,
) -> bool {
    let k = old_tx.elements@.len();
    let m = (new_tx.elements@.len() - k) as nat;
    &&& new_tx.wf()
    &&& new_tx.capacity == old_tx.capacity
    &&& k <= new_tx.elements@.len()
    &&& is_chunk_len(m, items.len(), old_tx.free())
    &&& new_tx.elements@ == old_tx.elements@ + reports(items.take(m as int), answers)
    &&& new_t.session == old_t.session
    &&& new_t.resume_path == (if m < items.len() { Some(items[m as int].path) } else { None::<ItemPath> })
    &&& r == Ok::<bool, Error>(m == items.len())
}

/// The write and invoke outcome: every item is encoded with its answer and
/// no resume path, or the reports of the items that fitted are followed by
/// an error and the exchange is not completed.
pub open spec fn all_done(
    old_tx: Packet,
    new_tx: Packet,
    old_t: Transaction,
    new_t: Transaction,
    items: Seq<Item>,
    answers: Seq<Outcome>,
    r: Result<bool, Error>,
) -> bool {
    let k = old_tx.elements@.len();
    let m = (new_tx.elements@.len() - k) as nat;
    &&& new_tx.wf()
    &&& new_tx.capacity == old_tx.capacity
    &&& k <= new_tx.elements@.len()
    &&& is_chunk_len(m, items.len(), old_tx.free())
    &&& new_tx.elements@ == old_tx.elements@ + reports(items.take(m as int), answers)
    &&& (r is Ok) == (m == items.len())
    &&& r is Ok ==> r == Ok::<bool, Error>(true) && new_t.session == old_t.session && new_t.resume_path is None
    &&& r is Err ==> r == Err::<bool, Error>(Error::NoSpace) && new_t == old_t
}

/// How many items the handler was called for when `new_tx` holds the
/// result of a write or invoke over `items`: all that fitted, and the one
/// that did not.
pub open spec fn calls_made(old_tx: Packet, new_tx: Packet, items: Seq<Item>) -> nat {
    let m = (new_tx.elements@.len() - old_tx.elements@.len()) as nat;
    if m < items.len() { m + 1 } else { m }
}

/// The exchange's state after a subscription was established: one
/// subscription element with the id drawn from the counter, which moved on.
pub open spec fn subscribed_done(
    old_tx: Packet,
    new_tx: Packet,
    old_t: Transaction,
    new_t: Transaction,
    old_ids: SubscriptionIds,
    new_ids: SubscriptionIds,
    r: Result<bool, Error>,
) -> bool {
    &&& new_tx.wf()
    &&& new_tx.capacity == old_tx.capacity
    &&& new_ids.next == nth_id(old_ids.next, 1)
    &&& (r is Ok) == (SUBSCRIBED_SIZE <= old_tx.free())
    &&& r is Ok ==> {
        &&& r == Ok::<bool, Error>(true)
        &&& new_tx.elements@ == old_tx.elements@.push(
            Element::Subscribed { id: old_ids.next, max_interval: SUBSCRIBE_MAX_INTERVAL },
        )
        &&& new_t.session == old_t.session
        &&& new_t.resume_path is None
    }
    &&& r is Err ==> r == Err::<bool, Error>(Error::NoSpace) && new_t == old_t
        && new_tx.elements@ == old_tx.elements@
}

/// What a dispatch needs next.
#[derive(Clone, Copy, Debug, PartialEq, Eq)]
pub enum Step {
    /// Read the attribute at this path and hand the value to the next step.
    Read(ItemPath),
    /// Write the value to this path and hand the status to the next step.
    Write(ItemPath, u32),
    /// Invoke the command at this path and hand its answer to the next step.
    Invoke(ItemPath, u32),
    /// The dispatch is over, with this result.
    Done(Result<bool, Error>),
}

/// One dispatch in progress: the items to visit, how far it has come, and
/// whether it waits for the handler's answer on the current item. The
/// blocking and the suspending strategies both run it, and differ only in
/// how they call the handler between steps.
pub struct Dispatch {
    pub items: Vec<Item>,
    pub action: Action,
    pub pos: usize,
    pub awaiting: bool,
    pub finished: Option<Result<bool, Error>>,
    /// The answers handed in, by item.
    pub answers: Ghost<Seq<Outcome>>,
    pub start_tx: Ghost<Packet>,
    pub start_t: Ghost<Transaction>,
}

impl Dispatch {
    /// How the buffer and exchange relate to the dispatch's progress.
    pub open spec fn inv(&self, tx: Packet, t: Transaction) -> bool {
        let n = self.items@.len();
        let st = self.start_tx@;
        &&& self.pos <= n
        &&& self.answers@.len() == n
        &&& self.awaiting ==> self.pos < n && self.items@[self.pos as int].allowed && self.finished is None
        &&& self.action is Settled ==> self.finished is Some && !self.awaiting
        &&& !(self.action is Settled) ==> {
            &&& st.wf()
            &&& self.finished is None ==> {
                &&& tx.wf()
                &&& tx.capacity == st.capacity
                &&& tx.elements@ == st.elements@ + reports(self.items@.take(self.pos as int), self.answers@)
                &&& tx.used == st.used + self.pos * REPORT_SIZE
                &&& self.pos * REPORT_SIZE <= st.free()
                &&& t == self.start_t@
            }
            &&& self.finished matches Some(r) ==> {
                &&& self.action is Read ==> read_done(st, tx, self.start_t@, t, self.items@, self.answers@, r)
                &&& !(self.action is Read) ==> all_done(st, tx, self.start_t@, t, self.items@, self.answers@, r)
                &&& tx.elements@.len() == st.elements@.len() + self.pos
            }
        }
    }

    /// The position from which a step looks for work: past the current
    /// item when its answer is being handed in.
    pub open spec fn scan_from(&self) -> int {
        if self.awaiting { self.pos + 1 } else { self.pos as int }
    }

    proof fn lemma_reports_step(&self, tx_before: Seq<Element>, e: Element)
        requires
            self.pos < self.items@.len(),
            self.answers@.len() == self.items@.len(),
            e == report(self.items@[self.pos as int], self.answers@[self.pos as int]),
        ensures
            reports(self.items@.take(self.pos as int + 1), self.answers@)
                =~= reports(self.items@.take(self.pos as int), self.answers@).push(e),
    {
    }

    /// Hands in the handler's answer for the current item, if one was asked
    /// for, encodes it, encodes the unreachable items that follow, and asks
    /// for the handler's call on the next reachable item or ends the
    /// dispatch.
    pub fn step(&mut self, answer: Option<Outcome>, tx: &mut Packet, transaction: &mut Transaction) -> (s: Step)
        requires
            old(self).inv(*old(tx), *old(transaction)),
            old(self).awaiting ==> answer is Some,
        ensures
            final(self).inv(*final(tx), *final(transaction)),
            final(self).items == old(self).items,
            final(self).action == old(self).action,
            final(self).start_tx == old(self).start_tx,
            final(self).start_t == old(self).start_t,
            old(self).finished matches Some(r) ==> s == Step::Done(r) && final(self).pos == old(self).pos
                && final(self).finished == old(self).finished && *final(tx) == *old(tx)
                && *final(transaction) == *old(transaction),
            old(self).finished is None ==> {
                &&& old(self).scan_from() <= final(self).scan_from() || (s is Done && final(self).pos
                    == old(self).pos)
                &&& old(self).pos <= final(self).pos
                &&& forall|i: int| 0 <= i < old(self).pos ==> final(self).answers@[i] == old(self).answers@[i]
                &&& old(self).awaiting ==> final(self).answers@[old(self).pos as int] == answer->0
                &&& forall|i: int|
                    old(self).scan_from() <= i < final(self).pos ==> !(#[trigger] old(self).items@[i]).allowed
                &&& s matches Step::Done(r) ==> {
                    &&& final(self).finished == Some(r)
                    &&& !final(self).awaiting
                    &&& final(self).pos < old(self).items@.len() && !(old(self).awaiting && final(self).pos
                        == old(self).pos) ==> !old(self).items@[final(self).pos as int].allowed
                }
                &&& !(s is Done) ==> {
                    &&& final(self).awaiting
                    &&& final(self).finished is None
                    &&& old(self).scan_from() <= final(self).pos
                    &&& s == (match old(self).action {
                        Action::Read => Step::Read(old(self).items@[final(self).pos as int].path),
                        Action::Write(v) => Step::Write(old(self).items@[final(self).pos as int].path, v),
                        Action::Invoke(a) => Step::Invoke(old(self).items@[final(self).pos as int].path, a),
                        Action::Settled => Step::Done(Ok(false)),
                    })
                }
            },
    {
        if let Some(r) = self.finished {
            return Step::Done(r);
        }
        let n = self.items.len();
        if self.awaiting {
            let item = self.items[self.pos];
            let outcome = match answer {
                Some(o) => o,
                None => Outcome::Status(0),
            };
            self.answers = Ghost(self.answers@.update(self.pos as int, outcome));
            let e = Element::Report { path: item.path, outcome };
            proof {
                self.lemma_reports_step(tx.elements@, e);
                assert(self.items@.take(self.pos as int) == old(self).items@.take(old(self).pos as int));
                assert(reports(self.items@.take(self.pos as int), self.answers@) =~= reports(
                    self.items@.take(self.pos as int),
                    old(self).answers@,
                ));
            }
            self.awaiting = false;
            if tx.push(e).is_err() {
                return self.overflow(tx, transaction);
            }
            self.pos = self.pos + 1;
        }
        while self.pos < n && !self.items[self.pos].allowed
            invariant
                n == self.items@.len(),
                self.inv(*tx, *transaction),
                self.finished is None,
                old(self).finished is None,
                !self.awaiting,
                self.items == old(self).items,
                self.action == old(self).action,
                self.start_tx == old(self).start_tx,
                self.start_t == old(self).start_t,
                old(self).scan_from() <= self.pos,
                forall|i: int| 0 <= i < old(self).pos ==> self.answers@[i] == old(self).answers@[i],
                old(self).awaiting ==> self.answers@[old(self).pos as int] == answer->0,
                forall|i: int| old(self).scan_from() <= i < self.pos ==> !(#[trigger] old(self).items@[i]).allowed,
            decreases n - self.pos,
        {
            let item = self.items[self.pos];
            let e = Element::Report { path: item.path, outcome: Outcome::Status(STATUS_ACCESS_DENIED) };
            proof {
                self.lemma_reports_step(tx.elements@, e);
            }
            if tx.push(e).is_err() {
                return self.overflow(tx, transaction);
            }
            self.pos = self.pos + 1;
        }
        if self.pos == n {
            let r = Ok(transaction.complete(None));
            self.finished = Some(r);
            proof {
                assert(self.items@.take(n as int) =~= self.items@);
            }
            return Step::Done(r);
        }
        self.awaiting = true;
        let path = self.items[self.pos].path;
        match self.action {
            Action::Read => Step::Read(path),
            Action::Write(v) => Step::Write(path, v),
            Action::Invoke(a) => Step::Invoke(path, a),
            Action::Settled => Step::Done(Ok(false)),
        }
    }

    /// Ends the dispatch on the current item, whose report did not fit.
    fn overflow(&mut self, tx: &mut Packet, transaction: &mut Transaction) -> (s: Step)
        requires
            old(self).inv(*old(tx), *old(transaction)),
            old(self).finished is None,
            !old(self).awaiting,
            old(self).pos < old(self).items@.len(),
            old(tx).free() < REPORT_SIZE,
        ensures
            final(self).inv(*final(tx), *final(transaction)),
            final(self).items == old(self).items,
            final(self).action == old(self).action,
            final(self).start_tx == old(self).start_tx,
            final(self).start_t == old(self).start_t,
            final(self).pos == old(self).pos,
            final(self).answers == old(self).answers,
            !final(self).awaiting,
            s == Step::Done(final(self).finished->0),
            final(self).finished is Some,
    {
        let r = match self.action {
            Action::Read => Ok(transaction.complete(Some(self.items[self.pos].path))),
            _ => Err(Error::NoSpace),
        };
        self.finished = Some(r);
        Step::Done(r)
    }
}

/// The interaction dispatcher: binds the access-control store, the device
/// model and the handler together for each interaction. The subscription-id
/// counter is the runtime's, shared by every dispatcher it lends it to.
pub struct DataModel<'a, T> {
    pub acl_mgr: &'a AclMgr,
    pub node: &'a Node,
    pub handler: T,
    pub subscriptions: &'a mut SubscriptionIds,
}

/// A run of unreachable items leaves the handler as it was.
pub proof fn lemma_denied_run<T: Handler>(h: T, items: Seq<Item>, action: Action, a: int, b: int)
    requires
        0 <= a <= b <= items.len(),
        forall|i: int| a <= i < b ==> !(#[trigger] items[i]).allowed,
    ensures
        handler_state(h, items, action, a as nat) == handler_state(h, items, action, b as nat),
    decreases b - a,
{
    if a < b {
        lemma_denied_run(h, items, action, a, b - 1);
    }
}

/// Reads leave the handler as it was.
pub proof fn lemma_reads_keep_state<T: Handler>(h: T, items: Seq<Item>, i: nat)
    ensures
        handler_state(h, items, Action::Read, i) == h,
    decreases i,
{
    if i > 0 {
        lemma_reads_keep_state(h, items, (i - 1) as nat);
    }
}

/// Reports differ only where the items are reachable.
pub proof fn lemma_reports_agree(items: Seq<Item>, a: Seq<Outcome>, b: Seq<Outcome>, m: int)
    requires
        0 <= m <= items.len(),
        m <= a.len(),
        m <= b.len(),
        forall|i: int| 0 <= i < m && (#[trigger] items[i]).allowed ==> a[i] == b[i],
    ensures
        reports(items.take(m), a) == reports(items.take(m), b),
{
    assert(reports(items.take(m), a) =~= reports(items.take(m), b));
}

impl<'a, T> DataModel<'a, T> {
    pub fn new(acl_mgr: &'a AclMgr, node: &'a Node, handler: T, subscriptions: &'a mut SubscriptionIds) -> (r:
        Self)
        ensures
            r.acl_mgr == acl_mgr,
            r.node == node,
            r.handler == handler,
            r.subscriptions.next == old(subscriptions).next,
    {
        DataModel { acl_mgr, node, handler, subscriptions }
    }

    /// The privilege that the access-control store grants the session of `t`.
    pub open spec fn privilege_for(&self, t: Transaction) -> u8 {
        granted(self.acl_mgr.entries@, t.session.subject)
    }

    /// The items that a traversal of `kind` under `f` yields for the
    /// session of `t`.
    pub open spec fn items_for(&self, t: Transaction, kind: SlotKind, f: PathFilter) -> Seq<Item> {
        self.node.traversal(kind, f, self.privilege_for(t))
    }

    /// The items that `interaction` visits on the exchange `t`.
    pub open spec fn plan_items(&self, t: Transaction, interaction: Interaction) -> Seq<Item> {
        match interaction {
            Interaction::Read(req) => self.items_for(t, SlotKind::Attribute, req.filter),
            Interaction::Subscribe(req) => self.items_for(t, SlotKind::Attribute, req.filter),
            Interaction::ResumeRead(req) => resumed(
                self.items_for(t, SlotKind::Attribute, req.filter),
                req.resume_path,
            ),
            Interaction::ResumeSubscribe(req) => if req.resume_path is Some {
                resumed(self.items_for(t, SlotKind::Attribute, req.filter), req.resume_path)
            } else {
                Seq::empty()
            },
            Interaction::Write(req) => self.items_for(t, SlotKind::Attribute, req.filter),
            Interaction::Invoke(req) => self.items_for(t, SlotKind::Command, req.filter),
            Interaction::Timed(_) => Seq::empty(),
        }
    }

    /// Draws a new subscription id and encodes the subscription-established
    /// element for it.
    pub fn establish_subscription(&mut self, tx: &mut Packet) -> (r: Result<(), Error>)
        requires
            old(tx).wf(),
        ensures
            final(self).acl_mgr == old(self).acl_mgr,
            final(self).node == old(self).node,
            final(self).handler == old(self).handler,
            final(self).subscriptions.next == nth_id(old(self).subscriptions.next, 1),
            final(tx).wf(),
            final(tx).capacity == old(tx).capacity,
            (r is Ok) == (SUBSCRIBED_SIZE <= old(tx).free()),
            r is Ok ==> final(tx).elements@ == old(tx).elements@.push(
                Element::Subscribed {
                    id: old(self).subscriptions.next,
                    max_interval: SUBSCRIBE_MAX_INTERVAL,
                },
            ),
            r is Err ==> r == Err::<(), Error>(Error::NoSpace) && final(tx).elements@ == old(
                tx,
            ).elements@,
    {
        let id = self.subscriptions.allocate();
        tx.push(Element::Subscribed { id, max_interval: SUBSCRIBE_MAX_INTERVAL })
    }
}

/// What each interaction asks of the handler.
pub open spec fn plan_action(interaction: Interaction) -> Action {
    match interaction {
        Interaction::Read(_) | Interaction::Subscribe(_) | Interaction::ResumeRead(_) => Action::Read,
        Interaction::ResumeSubscribe(req) => if req.resume_path is Some {
            Action::Read
        } else {
            Action::Settled
        },
        Interaction::Write(req) => Action::Write(req.value),
        Interaction::Invoke(req) => Action::Invoke(req.args),
        Interaction::Timed(_) => Action::Settled,
    }
}

impl<'a, T: Handler> DataModel<'a, T> {
    /// What one dispatch of `interaction` does, from the dispatcher, buffer
    /// and exchange before it to those after it.
    pub open spec fn handled_by(
        old_s: Self,
        new_s: Self,
        interaction: Interaction,
        old_tx: Packet,
        new_tx: Packet,
        old_t: Transaction,
        new_t: Transaction,
        r: Result<bool, Error>,
    ) -> bool {
        let items = old_s.plan_items(old_t, interaction);
        let action = plan_action(interaction);
        let answers = expected_answers(old_s.handler, items, action);
        &&& new_s.acl_mgr == old_s.acl_mgr
        &&& new_s.node == old_s.node
        &&& match action {
            Action::Read => {
                &&& read_done(old_tx, new_tx, old_t, new_t, items, answers, r)
                &&& new_s.handler == old_s.handler
                &&& new_s.subscriptions.next == old_s.subscriptions.next
            },
            Action::Write(_) | Action::Invoke(_) => {
                &&& all_done(old_tx, new_tx, old_t, new_t, items, answers, r)
                &&& new_s.handler == handler_state(old_s.handler, items, action, calls_made(old_tx, new_tx, items))
                &&& new_s.subscriptions.next == old_s.subscriptions.next
            },
            Action::Settled => {
                &&& new_s.handler == old_s.handler
                &&& interaction is Timed ==> r == Ok::<bool, Error>(false) && new_tx == old_tx && new_t == old_t
                    && new_s.subscriptions.next == old_s.subscriptions.next
                &&& !(interaction is Timed) ==> subscribed_done(old_tx, new_tx, old_t, new_t,
                    *old_s.subscriptions, *new_s.subscriptions, r)
            },
        }
    }
}

impl<'a, T> DataModel<'a, T> {
    /// Opens the dispatch of `interaction`: builds the accessor, selects
    /// the traversal for its kind, and answers at once what visits no item.
    pub fn start(&mut self, interaction: Interaction, tx: &mut Packet, transaction: &mut Transaction) -> (d:
        Dispatch)
        requires
            old(tx).wf(),
        ensures
            final(self).acl_mgr == old(self).acl_mgr,
            final(self).node == old(self).node,
            final(self).handler == old(self).handler,
            d.items@ == old(self).plan_items(*old(transaction), interaction),
            d.action == plan_action(interaction),
            d.start_tx@ == *old(tx),
            d.start_t@ == *old(transaction),
            d.pos == 0,
            !d.awaiting,
            d.inv(*final(tx), *final(transaction)),
            !(d.action is Settled) ==> d.finished is None && final(self).subscriptions.next == old(self).subscriptions.next,
            interaction is Timed ==> d.finished == Some(Ok::<bool, Error>(false)) && *final(tx) == *old(tx)
                && *final(transaction) == *old(transaction) && final(self).subscriptions.next == old(self).subscriptions.next,
            d.action is Settled && !(interaction is Timed) ==> subscribed_done(*old(tx), *final(tx), *old(transaction),
                *final(transaction), *old(self).subscriptions, *final(self).subscriptions, d.finished->0),
    {
        let accessor = Accessor::for_session(transaction.session(), self.acl_mgr);
        let (items, action) = match interaction {
            Interaction::Read(req) => (
                self.node.traverse(SlotKind::Attribute, &req.filter, accessor.privilege),
                Action::Read,
            ),
            Interaction::Subscribe(req) => (
                self.node.traverse(SlotKind::Attribute, &req.filter, accessor.privilege),
                Action::Read,
            ),
            Interaction::ResumeRead(req) => {
                let all = self.node.traverse(SlotKind::Attribute, &req.filter, accessor.privilege);
                (resume_items(&all, req.resume_path), Action::Read)
            },
            Interaction::ResumeSubscribe(req) => if req.resume_path.is_some() {
                let all = self.node.traverse(SlotKind::Attribute, &req.filter, accessor.privilege);
                (resume_items(&all, req.resume_path), Action::Read)
            } else {
                (Vec::new(), Action::Settled)
            },
            Interaction::Write(req) => (
                self.node.traverse(SlotKind::Attribute, &req.filter, accessor.privilege),
                Action::Write(req.value),
            ),
            Interaction::Invoke(req) => (
                self.node.traverse(SlotKind::Command, &req.filter, accessor.privilege),
                Action::Invoke(req.args),
            ),
            Interaction::Timed(_) => (Vec::new(), Action::Settled),
        };
        let finished = match interaction {
            Interaction::Timed(_) => Some(Ok(false)),
            Interaction::ResumeSubscribe(req) => if req.resume_path.is_some() {
                None
            } else {
                match self.establish_subscription(tx) {
                    Ok(()) => Some(Ok(transaction.complete(None))),
                    Err(e) => Some(Err(e)),
                }
            },
            _ => None,
        };
        let ghost n = items@.len();
        assert(items@.take(0) =~= Seq::<Item>::empty());
        assert(reports(items@.take(0), Seq::new(n, |i: int| Outcome::Status(0))) =~= Seq::<Element>::empty());
        assert(old(tx).elements@ + Seq::<Element>::empty() =~= old(tx).elements@);
        Dispatch {
            items,
            action,
            pos: 0,
            awaiting: false,
            finished,
            answers: Ghost(Seq::new(n, |i: int| Outcome::Status(0))),
            start_tx: Ghost(*old(tx)),
            start_t: Ghost(*old(transaction)),
        }
    }
}

impl<'a, T: Handler> DataModel<'a, T> {
    /// Dispatches one interaction with the blocking strategy: runs the
    /// dispatch to its end, calling the handler whenever a step asks.
    #[verifier::rlimit(100)]
    pub fn handle(&mut self, interaction: Interaction, tx: &mut Packet, transaction: &mut Transaction) -> (r:
        Result<bool, Error>)
        requires
            old(tx).wf(),
        ensures
            Self::handled_by(*old(self), *final(self), interaction, *old(tx), *final(tx), *old(transaction),
                *final(transaction), r),
    {
        let mut d = self.start(interaction, tx, transaction);
        let ghost h0 = self.handler;
        let ghost items = d.items@;
        let ghost action = d.action;
        let mut answer: Option<Outcome> = None;
        loop
            invariant
                d.inv(*tx, *transaction),
                d.items@ == items,
                d.action == action,
                d.start_tx@ == *old(tx),
                d.start_t@ == *old(transaction),
                h0 == old(self).handler,
                items == old(self).plan_items(*old(transaction), interaction),
                action == plan_action(interaction),
                self.acl_mgr == old(self).acl_mgr,
                self.node == old(self).node,
                action is Settled ==> d.finished is Some && Self::handled_by(*old(self), *self, interaction,
                    *old(tx), *tx, *old(transaction), *transaction, d.finished->0),
                !(action is Settled) ==> d.finished is None && self.subscriptions.next == old(self).subscriptions.next,
                (answer is Some) == d.awaiting,
                d.awaiting ==> answer == Some(expected_answer(h0, items, action, d.pos as int))
                    && self.handler == handler_state(h0, items, action, (d.pos + 1) as nat),
                !d.awaiting ==> self.handler == handler_state(h0, items, action, d.pos as nat),
                forall|i: int| 0 <= i < d.pos && (#[trigger] items[i]).allowed ==> d.answers@[i]
                    == expected_answer(h0, items, action, i),
            decreases (items.len() - d.pos) * 2 + (if d.awaiting { 0int } else { 1int }),
        {
            let ghost before = d;
            let s = d.step(answer, tx, transaction);
            proof {
                if !(before.finished is Some) && before.scan_from() <= d.pos {
                    lemma_denied_run(h0, items, action, before.scan_from(), d.pos as int);
                    if before.awaiting {
                        assert(handler_state(h0, items, action, (before.pos + 1) as nat) == handler_state(
                            h0,
                            items,
                            action,
                            before.scan_from() as nat,
                        ));
                    }
                }
            }
            match s {
                Step::Read(p) => {
                    answer = Some(self.handler.read(&p));
                },
                Step::Write(p, v) => {
                    answer = Some(Outcome::Status(self.handler.write(&p, v)));
                },
                Step::Invoke(p, a) => {
                    answer = Some(self.handler.invoke(&p, a));
                },
                Step::Done(r) => {
                    proof {
                        if action is Read {
                            lemma_reads_keep_state(h0, items, d.pos as nat);
                        }
                        if !(action is Settled) {
                            let m = d.pos as int;
                            let exp = expected_answers(h0, items, action);
                            lemma_reports_agree(items, d.answers@, exp, m);
                            if m < items.len() && !(before.awaiting && d.pos == before.pos) {
                                lemma_denied_run(h0, items, action, m, m + 1);
                            }
                        }
                    }
                    return r;
                },
            }
        }
    }
}

/// What the transport layer holds to dispatch interactions: a dispatcher,
/// or any other implementer of the same contract.
pub trait DataHandler: Sized {
    /// What one call of `handle` does, from the state before it to the
    /// state after it.
    spec fn handled(
        old_s: Self,
        new_s: Self,
        interaction: Interaction,
        old_tx: Packet,
        new_tx: Packet,
        old_t: Transaction,
        new_t: Transaction,
        r: Result<bool, Error>,
    ) -> bool;

    fn handle(&mut self, interaction: Interaction, tx: &mut Packet, transaction: &mut Transaction) -> (r:
        Result<bool, Error>)
        requires
            old(tx).wf(),
        ensures
            Self::handled(*old(self), *final(self), interaction, *old(tx), *final(tx), *old(transaction),
                *final(transaction), r),
    ;
}

impl<'a, T: Handler> DataHandler for DataModel<'a, T> {
    open spec fn handled(
        old_s: Self,
        new_s: Self,
        interaction: Interaction,
        old_tx: Packet,
        new_tx: Packet,
        old_t: Transaction,
        new_t: Transaction,
        r: Result<bool, Error>,
    ) -> bool {
        Self::handled_by(old_s, new_s, interaction, old_tx, new_tx, old_t, new_t, r)
    }

    fn handle(&mut self, interaction: Interaction, tx: &mut Packet, transaction: &mut Transaction) -> (r:
        Result<bool, Error>) {
        DataModel::handle(self, interaction, tx, transaction)
    }
}

impl<'b, D: DataHandler> DataHandler for &'b mut D {
    open spec fn handled(
        old_s: Self,
        new_s: Self,
        interaction: Interaction,
        old_tx: Packet,
        new_tx: Packet,
        old_t: Transaction,
        new_t: Transaction,
        r: Result<bool, Error>,
    ) -> bool {
        D::handled(*old_s, *new_s, interaction, old_tx, new_tx, old_t, new_t, r)
    }

    fn handle(&mut self, interaction: Interaction, tx: &mut Packet, transaction: &mut Transaction) -> (r:
        Result<bool, Error>) {
        (**self).handle(interaction, tx, transaction)
    }
}

/// A traversal that yields nothing completes the exchange at once, with no
/// resume path, no element written and the handler left as it was.
pub proof fn lemma_empty_traversal<T: Handler>(
    old_tx: Packet,
    new_tx: Packet,
    old_t: Transaction,
    new_t: Transaction,
    h: T,
    action: Action,
    r: Result<bool, Error>,
)
    requires
        action is Read ==> read_done(old_tx, new_tx, old_t, new_t, Seq::empty(),
            expected_answers(h, Seq::empty(), action), r),
        !(action is Read) ==> all_done(old_tx, new_tx, old_t, new_t, Seq::empty(),
            expected_answers(h, Seq::empty(), action), r),
    ensures
        r == Ok::<bool, Error>(true),
        new_t.resume_path is None,
        new_tx.elements@ == old_tx.elements@,
        handler_state(h, Seq::empty(), action, calls_made(old_tx, new_tx, Seq::empty())) == h,
{
    let e = Seq::<Item>::empty();
    assert(reports(e.take(0), expected_answers(h, e, action)) =~= Seq::<Element>::empty());
    assert(old_tx.elements@ + Seq::<Element>::empty() =~= old_tx.elements@);
}

/// Write and invoke never leave a resume path: every item is encoded once,
/// in traversal order, with the handler's answer; when the reports do not
/// all fit the dispatch fails instead, after the handler was called on the
/// items up to the first that did not fit and on none after it.
pub proof fn lemma_all_items_once(
    old_tx: Packet,
    new_tx: Packet,
    old_t: Transaction,
    new_t: Transaction,
    items: Seq<Item>,
    answers: Seq<Outcome>,
    r: Result<bool, Error>,
)
    requires
        old_t.resume_path is None,
        all_done(old_tx, new_tx, old_t, new_t, items, answers, r),
    ensures
        new_t.resume_path is None,
        r is Ok ==> r == Ok::<bool, Error>(true) && new_tx.elements@ == old_tx.elements@ + reports(items, answers),
        r is Err ==> r == Err::<bool, Error>(Error::NoSpace) && items.len() * REPORT_SIZE > old_tx.free(),
        calls_made(old_tx, new_tx, items) <= items.len(),
{
    if r is Ok {
        assert(items.take(items.len() as int) =~= items);
    } else {
        let m = new_tx.elements@.len() - old_tx.elements@.len();
        let free = old_tx.free() as int;
        let n = items.len() as int;
        assert(n * 16 > free) by (nonlinear_arith)
            requires
                m < n,
                free < (m + 1) * 16,
        ;
    }
}

/// The blocking and the suspending strategies both run `Dispatch`, and a
/// dispatch's output depends on nothing but the handler's answers: two runs
/// of the same dispatch, from the same buffer and exchange, that were handed
/// the same answers for the reachable items write the same elements, use
/// the same bytes, leave the same resume path and end with the same result.
pub proof fn lemma_same_answers_same_output(
    d1: Dispatch,
    tx1: Packet,
    t1: Transaction,
    d2: Dispatch,
    tx2: Packet,
    t2: Transaction,
)
    requires
        d1.inv(tx1, t1),
        d2.inv(tx2, t2),
        d1.finished is Some,
        d2.finished is Some,
        !(d1.action is Settled),
        d1.items@ == d2.items@,
        d1.action == d2.action,
        d1.start_tx == d2.start_tx,
        d1.start_t == d2.start_t,
        forall|i: int| 0 <= i < d1.items@.len() && (#[trigger] d1.items@[i]).allowed ==> d1.answers@[i]
            == d2.answers@[i],
    ensures
        tx1.elements@ == tx2.elements@,
        tx1.used == tx2.used,
        t1.resume_path == t2.resume_path,
        d1.finished == d2.finished,
{
    let items = d1.items@;
    let st = d1.start_tx@;
    let m1 = d1.pos as int;
    let m2 = d2.pos as int;
    let free = st.free() as int;
    let n = items.len() as int;
    assert(m1 == m2) by (nonlinear_arith)
        requires
            0 <= m1 <= n,
            0 <= m2 <= n,
            m1 * 16 <= free,
            m2 * 16 <= free,
            m1 < n ==> free < (m1 + 1) * 16,
            m2 < n ==> free < (m2 + 1) * 16,
    ;
    lemma_reports_agree(items, d1.answers@, d2.answers@, m1);
}

/// The reports that reads of `items` produce in handler state `h`.
pub open spec fn read_elements<T: Handler>(h: T, items: Seq<Item>) -> Seq<Element> {
    Seq::new(items.len(), |i: int| report(items[i], h.read_value(items[i].path)))
}

/// What a read-family dispatch over `items` writes, restated over
/// `read_elements`.
pub proof fn lemma_read_answers<T: Handler>(h: T, items: Seq<Item>, m: int)
    requires
        0 <= m <= items.len(),
    ensures
        reports(items.take(m), expected_answers(h, items, Action::Read)) == read_elements(h, items.take(m)),
{
    assert forall|i: int| 0 <= i < m implies #[trigger] handler_state(h, items, Action::Read, i as nat) == h by {
        lemma_reads_keep_state(h, items, i as nat);
    }
    assert(reports(items.take(m), expected_answers(h, items, Action::Read)) =~= read_elements(h, items.take(m)));
}

pub open spec fn total_len(ms: Seq<nat>) -> nat
    decreases ms.len(),
{
    if ms.len() == 0 {
        0
    } else {
        total_len(ms.drop_last()) + ms.last()
    }
}

/// The resume path that a chunk starting at position `pos` of `s` is
/// dispatched with: none for the first.
pub open spec fn resume_at(s: Seq<Item>, pos: nat) -> Option<ItemPath> {
    if pos == 0 || pos >= s.len() { None } else { Some(s[pos as int].path) }
}

/// The elements written by a chain of read dispatches over `s`, the `i`-th
/// encoding `ms[i]` items of the traversal resumed where the one before it
/// stopped.
pub open spec fn chunk_chain<T: Handler>(h: T, s: Seq<Item>, ms: Seq<nat>) -> Seq<Element>
    decreases ms.len(),
{
    if ms.len() == 0 {
        Seq::empty()
    } else {
        let p = total_len(ms.drop_last());
        chunk_chain(h, s, ms.drop_last()) + read_elements(h, resumed(s, resume_at(s, p)).take(ms.last() as int))
    }
}

/// Chunked reads lose, repeat and reorder nothing: any number of read
/// dispatches, each resumed from the path where the one before stopped,
/// together write exactly the reports that one dispatch writes for the same
/// items; when the chain reaches the end of the traversal, that is what one
/// dispatch into an unbounded buffer writes.
pub proof fn lemma_chunked_reads<T: Handler>(
    node: &Node,
    kind: SlotKind,
    f: PathFilter,
    privilege: u8,
    h: T,
    ms: Seq<nat>,
)
    requires
        node.wf(),
        total_len(ms) <= node.traversal(kind, f, privilege).len(),
        forall|j: int| 0 < j < ms.len() ==> total_len(#[trigger] ms.take(j)) < node.traversal(kind, f, privilege).len(),
    ensures
        chunk_chain(h, node.traversal(kind, f, privilege), ms) == read_elements(
            h,
            node.traversal(kind, f, privilege).take(total_len(ms) as int),
        ),
    decreases ms.len(),
{
    let s = node.traversal(kind, f, privilege);
    if ms.len() > 0 {
        let prev = ms.drop_last();
        let p = total_len(prev);
        let ml = ms.last();
        assert forall|j: int| 0 < j < prev.len() implies total_len(#[trigger] prev.take(j)) < s.len() by {
            assert(prev.take(j) =~= ms.take(j));
        }
        if prev.len() > 0 {
            assert(prev =~= ms.take(prev.len() as int));
        }
        lemma_chunked_reads(node, kind, f, privilege, h, prev);
        if p == 0 {
            assert(s.skip(0) =~= s);
        } else {
            lemma_resume_continues(node, kind, f, privilege, p as int, 0);
        }
        assert(resumed(s, resume_at(s, p)) == s.skip(p as int));
        assert(read_elements(h, s.take(p as int)) + read_elements(h, s.skip(p as int).take(ml as int))
            =~= read_elements(h, s.take((p + ml) as int)));
    }
}

} // verus!
