use vstd::prelude::*;
use crate::model::{Item, ItemPath};

verus! {

/// Bytes taken in the buffer by one report element (a path and a value or
/// status).
pub const REPORT_SIZE: usize = 16;

/// Bytes taken by a subscription-established element.
pub const SUBSCRIBED_SIZE: usize = 10;

/// The status written for an item that the requester may not reach.
pub const STATUS_ACCESS_DENIED: u16 = 0x7e;

/// What one item produced: a value, or a status code.
#[derive(Clone, Copy, Debug, PartialEq, Eq, Structural)]
pub enum Outcome {
    Data(u32),
    Status(u16),
}

/// One element of the response stream.
#[derive(Clone, Copy, Debug, PartialEq, Eq, Structural)]
pub enum Element {
    Report { path: ItemPath, outcome: Outcome },
    Subscribed { id: u32, max_interval: u16 },
}

#[derive(Clone, Copy, Debug, PartialEq, Eq, Structural)]
pub enum Error {
    /// An element that had to be written did not fit.
    NoSpace,
}

pub open spec fn element_size(e: Element) -> nat {
    match e {
        Element::Report { .. } => REPORT_SIZE as nat,
        Element::Subscribed { .. } => SUBSCRIBED_SIZE as nat,
    }
}

pub open spec fn total_size(s: Seq<Element>) -> nat
    decreases s.len(),
{
    if s.len() == 0 {
        0
    } else {
        total_size(s.drop_last()) + element_size(s.last())
    }
}

/// The element written for `item`: the handler's outcome where the item is
/// reachable, an access-denied status where it is not.
pub open spec fn report(item: Item, outcome: Outcome) -> Element {
    Element::Report {
        path: item.path,
        outcome: if item.allowed { outcome } else { Outcome::Status(STATUS_ACCESS_DENIED) },
    }
}

proof fn lemma_total_size_grows(s: Seq<Element>, n: int)
    requires
        0 <= n <= s.len(),
    ensures
        total_size(s.take(n)) <= total_size(s),
    decreases s.len() - n,
{
    if n < s.len() {
        lemma_total_size_grows(s, n + 1);
        assert(s.take(n + 1).drop_last() =~= s.take(n));
    } else {
        assert(s.take(n) =~= s);
    }
}

/// A response buffer of fixed capacity that holds whole elements only.
pub struct Packet {
    pub elements: Vec<Element>,
    pub used: usize,
    pub capacity: usize,
}

impl Packet {
    pub open spec fn wf(&self) -> bool {
        &&& self.used == total_size(self.elements@)
        &&& self.used <= self.capacity
    }

    pub open spec fn free(&self) -> nat {
        (self.capacity - self.used) as nat
    }

    pub fn new(capacity: usize) -> (r: Packet)
        ensures
            r.wf(),
            r.elements@ == Seq::<Element>::empty(),
            r.capacity == capacity,
    {
        Packet { elements: Vec::new(), used: 0, capacity }
    }

    /// Whether the recorded size matches the elements and stays within the
    /// capacity.
    pub fn is_valid(&self) -> (r: bool)
        ensures
            r == self.wf(),
    {
        let mut total: usize = 0;
        let mut i: usize = 0;
        while i < self.elements.len()
            invariant
                i <= self.elements@.len(),
                total == total_size(self.elements@.take(i as int)),
                total <= self.used,
            decreases self.elements@.len() - i,
        {
            assert(self.elements@.take(i as int + 1).drop_last() =~= self.elements@.take(i as int));
            let size: usize = match self.elements[i] {
                Element::Report { .. } => REPORT_SIZE,
                Element::Subscribed { .. } => SUBSCRIBED_SIZE,
            };
            if size > self.used - total {
                proof {
                    lemma_total_size_grows(self.elements@, i as int + 1);
                }
                return false;
            }
            total = total + size;
            i = i + 1;
        }
        assert(self.elements@.take(i as int) =~= self.elements@);
        total == self.used && self.used <= self.capacity
    }

    /// Appends `e` if it fits; otherwise leaves the buffer as it was and
    /// reports `NoSpace`.
    pub fn push(&mut self, e: Element) -> (r: Result<(), Error>)
        requires
            old(self).wf(),
        ensures
            final(self).wf(),
            final(self).capacity == old(self).capacity,
            element_size(e) <= old(self).free() ==> r is Ok && final(self).elements@ == old(
                self,
            ).elements@.push(e) && final(self).used == old(self).used + element_size(e),
            element_size(e) > old(self).free() ==> r == Err::<(), Error>(Error::NoSpace)
                && final(self).elements@ == old(self).elements@ && final(self).used == old(self).used,
    {
        let size: usize = match e {
            Element::Report { .. } => REPORT_SIZE,
            Element::Subscribed { .. } => SUBSCRIBED_SIZE,
        };
        if size <= self.capacity - self.used {
            self.elements.push(e);
            self.used = self.used + size;
            assert(self.elements@.drop_last() == old(self).elements@);
            Ok(())
        } else {
            Err(Error::NoSpace)
        }
    }
}

} // verus!
